//! The bytes that values are written as, where both directions share them.

use vstd::prelude::*;

use crate::id::{ID_BLOCK, ID_LEN, ID_LEN_NAME, spec_ident_number};
use crate::varint::varint_enc;

verus! {

/// The byte of `false`.
pub const FALSE: u8 = 0;
/// The byte of `true`.
pub const TRUE: u8 = 1;

/// The tag of an absent optional value.
pub const NONE: u8 = 0;
/// The tag of a present optional value.
pub const SOME: u8 = 1;

/// A length that is not itself but says that another length follows.
pub const SPECIAL_LEN: usize = 125;
/// Following [`SPECIAL_LEN`]: the length was not known, and the elements sit
/// in a block, each announced.
pub const UNKNOWN_LEN: usize = 0;

/// Announces another element of a sequence whose length was not stated.
pub const MORE: u8 = 1;
/// Ends a sequence whose length was not stated.
pub const NO_MORE: u8 = 0;

/// The length prefix of a sequence or map: its length, or the two markers
/// of one whose length was not known.
pub open spec fn len_enc(len: Option<usize>) -> Seq<u8> {
    match len {
        Some(n) => if n == SPECIAL_LEN {
            varint_enc(SPECIAL_LEN as nat) + varint_enc(SPECIAL_LEN as nat)
        } else {
            varint_enc(n as nat)
        },
        None => varint_enc(SPECIAL_LEN as nat) + varint_enc(UNKNOWN_LEN as nat),
    }
}

/// The block flag as a number to add to an identifier byte.
pub open spec fn block_bit(block: bool) -> nat {
    if block {
        ID_BLOCK as nat
    } else {
        0
    }
}

/// An identifier with the UTF-8 name `name`, and the flag stating whether a
/// block follows it.
pub open spec fn ident_enc(name: Seq<u8>, block: bool) -> Seq<u8> {
    match spec_ident_number(name) {
        Some(n) => seq![(ID_LEN_NAME + n + block_bit(block)) as u8],
        None => if name.len() < ID_LEN {
            seq![(name.len() + block_bit(block)) as u8] + name
        } else {
            seq![(ID_LEN + block_bit(block)) as u8] + varint_enc(name.len()) + name
        },
    }
}

/// The bytes of a float's bits, least significant first.
pub open spec fn le_bytes(x: nat, n: nat) -> Seq<u8>
    decreases n,
{
    if n == 0 {
        Seq::empty()
    } else {
        seq![(x % 256) as u8] + le_bytes(x / 256, (n - 1) as nat)
    }
}

/// The number whose bytes, least significant first, are `b`.
pub open spec fn from_le_bytes(b: Seq<u8>) -> nat
    decreases b.len(),
{
    if b.len() == 0 {
        0
    } else {
        b[0] as nat + 256 * from_le_bytes(b.drop_first())
    }
}

/// The bits of a float are read back as they were written.
pub proof fn le_bytes_round_trip(x: nat, n: nat)
    ensures
        le_bytes(x, n).len() == n,
        from_le_bytes(le_bytes(x, n)) == (x as int) % vstd::arithmetic::power::pow(256, n),
    decreases n,
{
    vstd::arithmetic::power::lemma_pow0(256);
    if n > 0 {
        le_bytes_round_trip(x / 256, (n - 1) as nat);
        let b = le_bytes(x, n);
        assert(b.drop_first() =~= le_bytes(x / 256, (n - 1) as nat));
        let p1 = vstd::arithmetic::power::pow(256, (n - 1) as nat);
        assert(vstd::arithmetic::power::pow(256, n) == 256 * p1) by {
            vstd::arithmetic::power::lemma_pow_adds(256, 1, (n - 1) as nat);
            vstd::arithmetic::power::lemma_pow1(256);
        }
        vstd::arithmetic::power::lemma_pow_positive(256, (n - 1) as nat);
        let xi = x as int;
        let pi = p1 as int;
        vstd::arithmetic::div_mod::lemma_breakdown(xi, 256, pi);
        assert(from_le_bytes(b) == (xi % 256) + 256 * ((xi / 256) % pi));
    }
}

/// The number whose bytes, least significant first, are `b`.
pub fn le_value(b: &Vec<u8>) -> (r: u64)
    requires
        b@.len() <= 8,
    ensures
        r == from_le_bytes(b@),
{
    let n = b.len();
    let mut acc: u64 = 0;
    let mut i: usize = n;
    proof {
        assert(b@.skip(n as int) =~= Seq::<u8>::empty());
        vstd::arithmetic::power::lemma_pow0(256);
    }
    while i > 0
        invariant
            n == b@.len() <= 8,
            i <= n,
            acc == from_le_bytes(b@.skip(i as int)),
            acc < vstd::arithmetic::power::pow(256, (n - i) as nat),
        decreases i,
    {
        i = i - 1;
        proof {
            let t = b@.skip(i as int);
            assert(t.drop_first() =~= b@.skip(i + 1));
            assert(t[0] == b@[i as int]);
            let p = vstd::arithmetic::power::pow(256, (n - i - 1) as nat);
            assert(vstd::arithmetic::power::pow(256, (n - i) as nat) == 256 * p) by {
                vstd::arithmetic::power::lemma_pow_adds(256, 1, (n - i - 1) as nat);
                vstd::arithmetic::power::lemma_pow1(256);
            }
            vstd::arithmetic::power::lemma_pow_increases(256, (n - i - 1) as nat, 7);
            assert(vstd::arithmetic::power::pow(256, 7) == 0x100_0000_0000_0000) by {
                reveal_with_fuel(vstd::arithmetic::power::pow, 8);
            }
            assert(acc * 256 + b@[i as int] < 256 * p) by (nonlinear_arith)
                requires
                    acc < p,
                    b@[i as int] < 256,
            ;
            assert(256 * p <= 0x1_0000_0000_0000_0000) by (nonlinear_arith)
                requires
                    p <= 0x100_0000_0000_0000,
            ;
        }
        acc = acc * 256 + b[i] as u64;
    }
    assert(b@.skip(0) =~= b@);
    acc
}

/// A number read from `n` bytes is below `256^n`.
pub proof fn lemma_le_value_bound(b: Seq<u8>)
    ensures
        from_le_bytes(b) < vstd::arithmetic::power::pow(256, b.len()),
    decreases b.len(),
{
    vstd::arithmetic::power::lemma_pow0(256);
    if b.len() > 0 {
        let t = b.drop_first();
        lemma_le_value_bound(t);
        let p = vstd::arithmetic::power::pow(256, t.len());
        assert(vstd::arithmetic::power::pow(256, b.len()) == 256 * p) by {
            vstd::arithmetic::power::lemma_pow_adds(256, 1, t.len());
            vstd::arithmetic::power::lemma_pow1(256);
        }
        assert(b[0] + 256 * from_le_bytes(t) < 256 * p) by (nonlinear_arith)
            requires
                from_le_bytes(t) < p,
                b[0] < 256,
        ;
    }
}

/// The bytes of the number read from some bytes are those bytes.
pub proof fn lemma_le_bytes_of_value(b: Seq<u8>)
    ensures
        le_bytes(from_le_bytes(b), b.len()) == b,
    decreases b.len(),
{
    if b.len() > 0 {
        let t = b.drop_first();
        lemma_le_bytes_of_value(t);
        let x = from_le_bytes(b);
        assert(x % 256 == b[0] && x / 256 == from_le_bytes(t)) by (nonlinear_arith)
            requires
                x == b[0] + 256 * from_le_bytes(t),
                b[0] < 256,
        ;
        assert(le_bytes(x, b.len()) =~= b);
    }
}

} // verus!
