//! Floats written with as few bytes as their bits need: the bits in
//! big-endian order, without the zero bytes at the end.
//!
//! The significand occupies the low bits, so the zero bits at the end of a
//! float with few significant digits become zero bytes at the end of the
//! big-endian pattern.

use vstd::prelude::*;

use crate::format::{
    from_le_bytes, le_bytes, le_bytes_round_trip, le_value, lemma_le_bytes_of_value, lemma_le_value_bound,
};

verus! {

/// A float written with as few bytes as its bits need.
pub struct Varfloat<T>(pub T);

impl<T> Varfloat<T> {
    /// Wraps the float.
    pub fn new(value: T) -> (r: Self)
        ensures
            r.0 == value,
    {
        Self(value)
    }

    /// Returns the float.
    pub fn into_inner(self) -> (r: T)
        ensures
            r == self.0,
    {
        self.0
    }
}

impl<T> From<T> for Varfloat<T> {
    fn from(value: T) -> (r: Self) {
        Self(value)
    }
}

impl<T> vstd::std_specs::convert::FromSpecImpl<T> for Varfloat<T> {
    open spec fn obeys_from_spec() -> bool {
        true
    }

    open spec fn from_spec(v: T) -> Self {
        Varfloat(v)
    }
}

/// The bytes without the zero bytes at their end.
pub open spec fn trim_zeros(b: Seq<u8>) -> Seq<u8>
    decreases b.len(),
{
    if b.len() > 0 && b.last() == 0 {
        trim_zeros(b.drop_last())
    } else {
        b
    }
}

/// The bytes, with zero bytes added at the end up to `n` of them.
pub open spec fn pad_zeros(b: Seq<u8>, n: nat) -> Seq<u8> {
    b + Seq::new((n - b.len()) as nat, |i: int| 0u8)
}

/// Whether bytes are the shortest form of some bits of `n` bytes: no more
/// than `n` of them, and no zero byte at the end.
pub open spec fn shortest(v: Seq<u8>, n: nat) -> bool {
    v.len() <= n && (v.len() == 0 || v.last() != 0)
}

/// The shortest form of the `n`-byte bits `x`: its bytes, most significant
/// first, without the zero bytes at the end.
pub open spec fn var_bytes(x: nat, n: nat) -> Seq<u8> {
    trim_zeros(le_bytes(x, n).reverse())
}

/// The bits that the shortest form `v` of `n`-byte bits stands for.
pub open spec fn var_value(v: Seq<u8>, n: nat) -> nat {
    from_le_bytes(pad_zeros(v, n).reverse())
}

/// Trimming and padding back gives the bytes as they were.
pub proof fn lemma_trim_pad(b: Seq<u8>)
    ensures
        pad_zeros(trim_zeros(b), b.len()) == b,
        shortest(trim_zeros(b), b.len()),
    decreases b.len(),
{
    if b.len() > 0 && b.last() == 0 {
        lemma_trim_pad(b.drop_last());
        let t = trim_zeros(b.drop_last());
        assert(pad_zeros(t, b.len()) =~= pad_zeros(t, b.drop_last().len()).push(0u8));
        assert(b =~= b.drop_last().push(0u8));
    } else {
        assert(pad_zeros(b, b.len()) =~= b);
    }
}

/// Padding the shortest form and trimming again gives the shortest form.
pub proof fn lemma_pad_trim(v: Seq<u8>, n: nat)
    requires
        shortest(v, n),
    ensures
        trim_zeros(pad_zeros(v, n)) == v,
    decreases n - v.len(),
{
    let p = pad_zeros(v, n);
    if v.len() < n {
        assert(p.last() == 0);
        assert(p.drop_last() =~= pad_zeros(v, (n - 1) as nat));
        lemma_pad_trim(v, (n - 1) as nat);
    } else {
        assert(p =~= v);
    }
}

/// What is written for some bits is read back as those bits.
pub proof fn varfloat_round_trip(x: nat, n: nat)
    requires
        x < vstd::arithmetic::power::pow(256, n),
    ensures
        shortest(var_bytes(x, n), n),
        var_value(var_bytes(x, n), n) == x,
{
    le_bytes_round_trip(x, n);
    let b = le_bytes(x, n).reverse();
    lemma_trim_pad(b);
    assert(b.reverse() =~= le_bytes(x, n));
    vstd::arithmetic::div_mod::lemma_small_mod(x, vstd::arithmetic::power::pow(256, n) as nat);
}

/// Every shortest form is written for the bits it stands for, and for no
/// others.
pub proof fn varfloat_unique(v: Seq<u8>, n: nat)
    requires
        shortest(v, n),
    ensures
        var_value(v, n) < vstd::arithmetic::power::pow(256, n),
        var_bytes(var_value(v, n), n) == v,
{
    let p = pad_zeros(v, n).reverse();
    lemma_le_value_bound(p);
    lemma_le_bytes_of_value(p);
    assert(p.reverse() =~= pad_zeros(v, n));
    lemma_pad_trim(v, n);
}

/// The shortest form of the bits of a float of `n` bytes.
pub fn var_encode(bits: u64, n: usize) -> (r: Vec<u8>)
    requires
        n <= 8,
    ensures
        r@ == var_bytes(bits as nat, n as nat),
{
    let le = le_vec(bits, n);
    proof {
        le_bytes_round_trip(bits as nat, n as nat);
    }
    let mut out: Vec<u8> = Vec::new();
    let mut i: usize = n;
    while i > 0
        invariant
            le@ == le_bytes(bits as nat, n as nat),
            le@.len() == n,
            i <= n,
            out@ == le@.reverse().take((n - i) as int),
        decreases i,
    {
        i = i - 1;
        out.push(le[i]);
        assert(out@ =~= le@.reverse().take((n - i) as int));
    }
    assert(out@ =~= le@.reverse());
    pop_zeros(&mut out);
    out
}

/// The bits of a float of `n` bytes from their shortest form, or `None`
/// where the bytes are not the shortest form of any.
pub fn var_decode(v: &[u8], n: usize) -> (r: Option<u64>)
    requires
        n <= 8,
    ensures
        r is Some <==> shortest(v@, n as nat),
        r matches Some(x) ==> x == var_value(v@, n as nat),
{
    let len = v.len();
    if len > n || (len > 0 && v[len - 1] == 0) {
        return None;
    }
    let mut le: Vec<u8> = Vec::new();
    let mut i: usize = n;
    let ghost p = pad_zeros(v@, n as nat);
    while i > 0
        invariant
            len == v@.len() <= n <= 8,
            p == pad_zeros(v@, n as nat),
            i <= n,
            le@ == p.reverse().take((n - i) as int),
        decreases i,
    {
        i = i - 1;
        let byte: u8 = if i < len {
            v[i]
        } else {
            0
        };
        assert(byte == p[i as int]);
        le.push(byte);
        assert(le@ =~= p.reverse().take((n - i) as int));
    }
    assert(le@ =~= p.reverse());
    Some(le_value(&le))
}

/// The `n` bytes of `x`, least significant first.
fn le_vec(x: u64, n: usize) -> (r: Vec<u8>)
    requires
        n <= 8,
    ensures
        r@ == le_bytes(x as nat, n as nat),
{
    let mut buf: Vec<u8> = Vec::new();
    let mut y = x;
    let mut i: usize = 0;
    while i < n
        invariant
            i <= n,
            buf@ + le_bytes(y as nat, (n - i) as nat) == le_bytes(x as nat, n as nat),
        decreases n - i,
    {
        let ghost before = buf@;
        buf.push((y % 256) as u8);
        assert(le_bytes(y as nat, (n - i) as nat) == seq![(y % 256) as u8] + le_bytes(
            (y / 256) as nat,
            (n - i - 1) as nat,
        ));
        assert(buf@ + le_bytes((y / 256) as nat, (n - i - 1) as nat) =~= before + le_bytes(
            y as nat,
            (n - i) as nat,
        ));
        y = y / 256;
        i = i + 1;
    }
    assert(buf@ =~= le_bytes(x as nat, n as nat));
    buf
}

/// Removes the zero bytes at the end.
fn pop_zeros(out: &mut Vec<u8>)
    ensures
        final(out)@ == trim_zeros(old(out)@),
{
    while out.len() > 0 && out[out.len() - 1] == 0
        invariant
            trim_zeros(out@) == trim_zeros(old(out)@),
        decreases out@.len(),
    {
        let ghost before = out@;
        out.pop();
        assert(out@ =~= before.drop_last());
    }
}

} // verus!
