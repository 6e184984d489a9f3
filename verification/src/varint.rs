//! Variable-length encoding of unsigned integers (unsigned LEB128).
//!
//! Each byte carries seven value bits, the least significant group first; the
//! high bit is set when another byte follows. A decoder of a given width
//! accepts at most a fixed number of bytes, and the last of them may only use
//! the bits that are left in that width.

use vstd::prelude::*;

verus! {

/// Most bytes a 16-bit varint takes.
pub const VARINT_MAX_U16: usize = 3;
/// Most bytes a 32-bit varint takes.
pub const VARINT_MAX_U32: usize = 5;
/// Most bytes a 64-bit varint takes.
pub const VARINT_MAX_U64: usize = 10;
/// Most bytes a 128-bit varint takes.
pub const VARINT_MAX_U128: usize = 19;

/// Largest final byte of a 16-bit varint of the longest form.
pub const MAX_LAST_U16: u8 = 0x03;
/// Largest final byte of a 32-bit varint of the longest form.
pub const MAX_LAST_U32: u8 = 0x0f;
/// Largest final byte of a 64-bit varint of the longest form.
pub const MAX_LAST_U64: u8 = 0x01;
/// Largest final byte of a 128-bit varint of the longest form.
pub const MAX_LAST_U128: u8 = 0x03;

/// The shortest encoding of `v`.
pub open spec fn varint_enc(v: nat) -> Seq<u8>
    decreases v,
{
    if v < 128 {
        seq![v as u8]
    } else {
        seq![(v % 128 + 128) as u8] + varint_enc(v / 128)
    }
}

/// What reading a varint from the front of some bytes gives.
pub enum VarintParse {
    /// The value and how many bytes it took.
    Value(nat, nat),
    /// The bytes are no varint of this width.
    Bad,
    /// The bytes end before the varint does.
    Short,
}

/// Reads a varint of at most `max_len` bytes, whose final byte, where it is
/// the `max_len`-th, is at most `max_last`.
pub open spec fn varint_parse(s: Seq<u8>, max_len: nat, max_last: nat) -> VarintParse
    decreases max_len,
{
    if max_len == 0 {
        VarintParse::Bad
    } else if s.len() == 0 {
        VarintParse::Short
    } else if s[0] < 128 {
        if max_len == 1 && s[0] > max_last {
            VarintParse::Bad
        } else {
            VarintParse::Value(s[0] as nat, 1)
        }
    } else if max_len == 1 {
        VarintParse::Bad
    } else {
        match varint_parse(s.drop_first(), (max_len - 1) as nat, max_last) {
            VarintParse::Value(v, k) => VarintParse::Value((s[0] - 128) as nat + 128 * v, k + 1),
            other => other,
        }
    }
}

/// One more than the largest value a varint of this shape can hold.
pub open spec fn varint_bound(max_len: nat, max_last: nat) -> nat
    decreases max_len,
{
    if max_len <= 1 {
        max_last + 1
    } else {
        128 * varint_bound((max_len - 1) as nat, max_last)
    }
}

/// The shapes of the four widths hold exactly the values of those widths.
pub proof fn lemma_varint_bounds()
    ensures
        varint_bound(VARINT_MAX_U16 as nat, MAX_LAST_U16 as nat) == 0x1_0000,
        varint_bound(VARINT_MAX_U32 as nat, MAX_LAST_U32 as nat) == 0x1_0000_0000,
        varint_bound(VARINT_MAX_U64 as nat, MAX_LAST_U64 as nat) == 0x1_0000_0000_0000_0000,
        varint_bound(VARINT_MAX_U128 as nat, MAX_LAST_U128 as nat)
            == 0x1_0000_0000_0000_0000_0000_0000_0000_0000,
{
    reveal_with_fuel(varint_bound, 20);
}

/// Reading the encoding of a value back, whatever follows it, gives the value
/// and the length of the encoding.
pub proof fn lemma_varint_round_trip(v: nat, rest: Seq<u8>, max_len: nat, max_last: nat)
    requires
        1 <= max_len,
        max_last < 128,
        v < varint_bound(max_len, max_last),
    ensures
        varint_parse(varint_enc(v) + rest, max_len, max_last) == VarintParse::Value(
            v,
            varint_enc(v).len(),
        ),
    decreases v,
{
    let s = varint_enc(v) + rest;
    if v < 128 {
        assert(s[0] == v as u8);
    } else {
        if max_len == 1 {
            assert(false);
        }
        let b = varint_bound((max_len - 1) as nat, max_last);
        assert(v / 128 < b) by (nonlinear_arith)
            requires
                v < 128 * b,
        ;
        assert(v == 128 * (v / 128) + v % 128) by (nonlinear_arith);
        lemma_varint_round_trip(v / 128, rest, (max_len - 1) as nat, max_last);
        assert(s.drop_first() =~= varint_enc(v / 128) + rest);
        assert(s[0] == (v % 128 + 128) as u8);
    }
}

/// A varint read from the front of some bytes reads the same whatever follows
/// those bytes.
pub proof fn lemma_varint_parse_prefix(s: Seq<u8>, t: Seq<u8>, max_len: nat, max_last: nat)
    ensures
        varint_parse(s, max_len, max_last) is Value ==> varint_parse(s + t, max_len, max_last)
            == varint_parse(s, max_len, max_last),
        varint_parse(s, max_len, max_last) is Bad ==> varint_parse(s + t, max_len, max_last)
            is Bad,
    decreases max_len,
{
    if max_len > 0 && s.len() > 0 {
        assert((s + t)[0] == s[0]);
        if s[0] >= 128 && max_len > 1 {
            assert((s + t).drop_first() =~= s.drop_first() + t);
            lemma_varint_parse_prefix(s.drop_first(), t, (max_len - 1) as nat, max_last);
        }
    }
}

/// Whatever bytes a value is read from, they are at least as many as its
/// shortest encoding has.
pub proof fn lemma_varint_shortest(s: Seq<u8>, max_len: nat, max_last: nat)
    ensures
        varint_parse(s, max_len, max_last) matches VarintParse::Value(v, k) ==> varint_enc(
            v,
        ).len() <= k,
    decreases max_len,
{
    if max_len > 0 && s.len() > 0 && s[0] >= 128 && max_len > 1 {
        lemma_varint_shortest(s.drop_first(), (max_len - 1) as nat, max_last);
        if let VarintParse::Value(w, j) = varint_parse(s.drop_first(), (max_len - 1) as nat, max_last) {
            let low = (s[0] - 128) as nat;
            let v = low + 128 * w;
            if v >= 128 {
                assert(v / 128 == w && v % 128 == low) by (nonlinear_arith)
                    requires
                        v == low + 128 * w,
                        low < 128,
                ;
            }
        }
    }
}

/// The value of the low seven bits of each byte, least significant group
/// first.
pub open spec fn varint_low(h: Seq<u8>) -> nat
    decreases h.len(),
{
    if h.len() == 0 {
        0
    } else {
        (h[0] % 128) as nat + 128 * varint_low(h.drop_first())
    }
}

/// What reading a varint gives, once the bytes `h` read before it are
/// accounted for.
pub open spec fn varint_lift(p: VarintParse, h: Seq<u8>) -> VarintParse {
    match p {
        VarintParse::Value(v, k) => VarintParse::Value(
            varint_low(h) + vstd::arithmetic::power::pow(128, h.len()) as nat * v,
            k + h.len(),
        ),
        other => other,
    }
}

/// Reading a varint after `h`, a run of bytes that each announce another,
/// continues where they leave off.
pub proof fn lemma_varint_continue(h: Seq<u8>, t: Seq<u8>, max_len: nat, max_last: nat)
    requires
        h.len() < max_len,
        forall|j: int| 0 <= j < h.len() ==> h[j] >= 128,
    ensures
        varint_parse(h + t, max_len, max_last) == varint_lift(
            varint_parse(t, (max_len - h.len()) as nat, max_last),
            h,
        ),
    decreases h.len(),
{
    vstd::arithmetic::power::lemma_pow0(128);
    if h.len() == 0 {
        assert(h + t =~= t);
        if let VarintParse::Value(v, k) = varint_parse(t, max_len, max_last) {
            assert(varint_low(h) == 0);
        }
    } else {
        let h2 = h.drop_first();
        assert forall|j: int| 0 <= j < h2.len() implies h2[j] >= 128 by {
            assert(h2[j] == h[j + 1]);
        }
        lemma_varint_continue(h2, t, (max_len - 1) as nat, max_last);
        assert((h + t).drop_first() =~= h2 + t);
        assert((h + t)[0] == h[0]);
        assert((max_len - 1 - h2.len()) as nat == (max_len - h.len()) as nat);
        if let VarintParse::Value(v, k) = varint_parse(
            t,
            (max_len - h.len()) as nat,
            max_last,
        ) {
            let p1 = vstd::arithmetic::power::pow(128, h2.len());
            let p = vstd::arithmetic::power::pow(128, h.len());
            vstd::arithmetic::power::lemma_pow_positive(128, h2.len());
            assert(p == 128 * p1) by {
                vstd::arithmetic::power::lemma_pow_adds(128, 1, h2.len());
                vstd::arithmetic::power::lemma_pow1(128);
            }
            let low2 = varint_low(h2);
            let c = (h[0] - 128) as nat;
            assert(h[0] % 128 == c);
            assert(c + 128 * (low2 + p1 * v) == (c + 128 * low2) + p * v) by (nonlinear_arith)
                requires
                    p == 128 * p1,
            ;
        }
    }
}

/// The low bits of a run of bytes, extended by one more byte.
pub proof fn lemma_varint_low_push(h: Seq<u8>, b: u8)
    ensures
        varint_low(h.push(b)) == varint_low(h) + vstd::arithmetic::power::pow(128, h.len()) * (
        b % 128) as nat,
    decreases h.len(),
{
    vstd::arithmetic::power::lemma_pow0(128);
    if h.len() == 0 {
        assert(h.push(b).drop_first() =~= Seq::<u8>::empty());
        assert(h.push(b)[0] == b);
        assert(varint_low(h.push(b)) == (b % 128) as nat + 128 * varint_low(Seq::<u8>::empty()));
    } else {
        let h2 = h.drop_first();
        assert(h.push(b).drop_first() =~= h2.push(b));
        assert(h.push(b)[0] == h[0]);
        lemma_varint_low_push(h2, b);
        let p1 = vstd::arithmetic::power::pow(128, h2.len());
        let p = vstd::arithmetic::power::pow(128, h.len());
        assert(p == 128 * p1) by {
            vstd::arithmetic::power::lemma_pow_adds(128, 1, h2.len());
            vstd::arithmetic::power::lemma_pow1(128);
        }
        let x = (b % 128) as nat;
        let low2 = varint_low(h2);
        assert(128 * (low2 + p1 * x) == 128 * low2 + p * x) by (nonlinear_arith)
            requires
                p == 128 * p1,
        ;
        assert(varint_low(h2.push(b)) == low2 + p1 * x);
        assert(varint_low(h.push(b)) == (h[0] % 128) as nat + 128 * varint_low(h2.push(b)));
        assert(varint_low(h) == (h[0] % 128) as nat + 128 * low2);
    }
}

/// The low bits of `i` bytes are fewer than `128^i`.
pub proof fn lemma_varint_low_bound(h: Seq<u8>)
    ensures
        varint_low(h) < vstd::arithmetic::power::pow(128, h.len()),
    decreases h.len(),
{
    vstd::arithmetic::power::lemma_pow0(128);
    if h.len() > 0 {
        let h2 = h.drop_first();
        lemma_varint_low_bound(h2);
        let p1 = vstd::arithmetic::power::pow(128, h2.len());
        assert(vstd::arithmetic::power::pow(128, h.len()) == 128 * p1) by {
            vstd::arithmetic::power::lemma_pow_adds(128, 1, h2.len());
            vstd::arithmetic::power::lemma_pow1(128);
        }
        let low2 = varint_low(h2);
        let c = (h[0] % 128) as nat;
        assert(c + 128 * low2 < 128 * p1) by (nonlinear_arith)
            requires
                c < 128,
                low2 < p1,
        ;
    }
}

/// A value read is below the bound of its shape.
pub proof fn lemma_varint_parse_bound(s: Seq<u8>, max_len: nat, max_last: nat)
    requires
        max_last < 128,
    ensures
        varint_parse(s, max_len, max_last) matches VarintParse::Value(v, k) ==> v < varint_bound(
            max_len,
            max_last,
        ),
    decreases max_len,
{
    if max_len > 1 && s.len() > 0 && s[0] >= 128 {
        lemma_varint_parse_bound(s.drop_first(), (max_len - 1) as nat, max_last);
        if let VarintParse::Value(w, j) = varint_parse(s.drop_first(), (max_len - 1) as nat, max_last) {
            let b = varint_bound((max_len - 1) as nat, max_last);
            let c = (s[0] - 128) as nat;
            assert(c + 128 * w < 128 * b) by (nonlinear_arith)
                requires
                    c < 128,
                    w < b,
            ;
        }
    } else if max_len > 1 && s.len() > 0 {
        assert(varint_bound(max_len, max_last) >= 128) by {
            lemma_varint_bound_grows(max_len, max_last);
        }
    }
}

/// A shape of more than one byte holds every value below 128.
pub proof fn lemma_varint_bound_grows(max_len: nat, max_last: nat)
    requires
        max_len > 1,
    ensures
        varint_bound(max_len, max_last) >= 128,
    decreases max_len,
{
    let b = varint_bound((max_len - 1) as nat, max_last);
    if max_len > 2 {
        lemma_varint_bound_grows((max_len - 1) as nat, max_last);
    }
    assert(b >= 1);
    assert(128 * b >= 128) by (nonlinear_arith)
        requires
            b >= 1,
    ;
}

/// `128^i` for the lengths a varint of at most 19 bytes reaches.
pub proof fn lemma_pow128_bound(i: nat)
    requires
        i <= 18,
    ensures
        vstd::arithmetic::power::pow(128, i) <= 0x4000_0000_0000_0000_0000_0000_0000_0000,
{
    vstd::arithmetic::power::lemma_pow_increases(128, i, 18);
    reveal_with_fuel(vstd::arithmetic::power::pow, 19);
}

/// Encodes a 128-bit value.
pub fn varint_u128(v: u128) -> (r: Vec<u8>)
    ensures
        r@ == varint_enc(v as nat),
{
    let mut out: Vec<u8> = Vec::new();
    let mut x: u128 = v;
    while x >= 128
        invariant
            out@ + varint_enc(x as nat) == varint_enc(v as nat),
        decreases x,
    {
        let byte: u8 = (x % 128 + 128) as u8;
        let ghost before = out@;
        out.push(byte);
        assert(out@ + varint_enc((x / 128) as nat) =~= before + varint_enc(x as nat));
        x = x / 128;
    }
    out.push(x as u8);
    assert(out@ =~= varint_enc(v as nat));
    out
}

/// Encodes a 64-bit value.
pub fn varint_u64(v: u64) -> (r: Vec<u8>)
    ensures
        r@ == varint_enc(v as nat),
{
    varint_u128(v as u128)
}

/// Encodes a 32-bit value.
pub fn varint_u32(v: u32) -> (r: Vec<u8>)
    ensures
        r@ == varint_enc(v as nat),
{
    varint_u128(v as u128)
}

/// Encodes a 16-bit value.
pub fn varint_u16(v: u16) -> (r: Vec<u8>)
    ensures
        r@ == varint_enc(v as nat),
{
    varint_u128(v as u128)
}

/// What a 16-bit varint writer writes, a 16-bit reader reads back.
pub proof fn varint_u16_round_trip(v: u16, rest: Seq<u8>)
    ensures
        varint_parse(varint_enc(v as nat) + rest, VARINT_MAX_U16 as nat, MAX_LAST_U16 as nat)
            == VarintParse::Value(v as nat, varint_enc(v as nat).len()),
{
    lemma_varint_bounds();
    lemma_varint_round_trip(v as nat, rest, VARINT_MAX_U16 as nat, MAX_LAST_U16 as nat);
}

/// What a 32-bit varint writer writes, a 32-bit reader reads back.
pub proof fn varint_u32_round_trip(v: u32, rest: Seq<u8>)
    ensures
        varint_parse(varint_enc(v as nat) + rest, VARINT_MAX_U32 as nat, MAX_LAST_U32 as nat)
            == VarintParse::Value(v as nat, varint_enc(v as nat).len()),
{
    lemma_varint_bounds();
    lemma_varint_round_trip(v as nat, rest, VARINT_MAX_U32 as nat, MAX_LAST_U32 as nat);
}

/// What a 64-bit varint writer writes, a 64-bit reader reads back.
pub proof fn varint_u64_round_trip(v: u64, rest: Seq<u8>)
    ensures
        varint_parse(varint_enc(v as nat) + rest, VARINT_MAX_U64 as nat, MAX_LAST_U64 as nat)
            == VarintParse::Value(v as nat, varint_enc(v as nat).len()),
{
    lemma_varint_bounds();
    lemma_varint_round_trip(v as nat, rest, VARINT_MAX_U64 as nat, MAX_LAST_U64 as nat);
}

/// What a 128-bit varint writer writes, a 128-bit reader reads back.
pub proof fn varint_u128_round_trip(v: u128, rest: Seq<u8>)
    ensures
        varint_parse(varint_enc(v as nat) + rest, VARINT_MAX_U128 as nat, MAX_LAST_U128 as nat)
            == VarintParse::Value(v as nat, varint_enc(v as nat).len()),
{
    lemma_varint_bounds();
    lemma_varint_round_trip(v as nat, rest, VARINT_MAX_U128 as nat, MAX_LAST_U128 as nat);
}

} // verus!
