//! Scalar property values.

use vstd::prelude::*;

verus! {

/// A scalar property value. Embeddings are stored separately on Node/Edge.
///
/// Floating-point numbers are held by their IEEE-754 bit patterns: `F64` holds the
/// bits of an `f64` and `Embedding` the bits of each `f32`.
#[derive(Debug)]
pub enum Scalar {
    Null,
    Bool(bool),
    I64(i64),
    F64(u64),
    String(String),
    Bytes(Vec<u8>),
    Embedding(Vec<u32>),
    Timestamp(u64),
}

/// The abstract value of a `Scalar`.
pub enum ScalarView {
    Null,
    Bool(bool),
    I64(i64),
    F64(u64),
    String(Seq<char>),
    Bytes(Seq<u8>),
    Embedding(Seq<u32>),
    Timestamp(u64),
}

impl View for Scalar {
    type V = ScalarView;

    open spec fn view(&self) -> ScalarView {
        match self {
            Scalar::Null => ScalarView::Null,
            Scalar::Bool(b) => ScalarView::Bool(*b),
            Scalar::I64(i) => ScalarView::I64(*i),
            Scalar::F64(f) => ScalarView::F64(*f),
            Scalar::String(s) => ScalarView::String(s@),
            Scalar::Bytes(b) => ScalarView::Bytes(b@),
            Scalar::Embedding(e) => ScalarView::Embedding(e@),
            Scalar::Timestamp(t) => ScalarView::Timestamp(*t),
        }
    }
}

/// Clones a vector of `u32`.
pub fn clone_u32s(v: &Vec<u32>) -> (r: Vec<u32>)
    ensures
        r@ == v@,
{
    let r = v.clone();
    proof {
        assert(r@ =~= v@);
    }
    r
}

impl Clone for Scalar {
    fn clone(&self) -> (r: Self)
        ensures
            r@ == self@,
    {
        match self {
            Scalar::Null => Scalar::Null,
            Scalar::Bool(b) => Scalar::Bool(*b),
            Scalar::I64(i) => Scalar::I64(*i),
            Scalar::F64(f) => Scalar::F64(*f),
            Scalar::String(s) => Scalar::String(s.clone()),
            Scalar::Bytes(b) => Scalar::Bytes(crate::outbox::clone_bytes(b)),
            Scalar::Embedding(e) => Scalar::Embedding(clone_u32s(e)),
            Scalar::Timestamp(t) => Scalar::Timestamp(*t),
        }
    }
}

/// The property list `props` viewed abstractly.
pub open spec fn props_view<K: Copy>(props: Seq<(K, Scalar)>) -> Seq<(K, ScalarView)> {
    Seq::new(props.len(), |i: int| (props[i].0, props[i].1@))
}

/// Clones a property list.
pub fn clone_props<K: Copy>(props: &Vec<(K, Scalar)>) -> (r: Vec<(K, Scalar)>)
    ensures
        props_view(r@) == props_view(props@),
{
    let mut out: Vec<(K, Scalar)> = Vec::new();
    let mut i: usize = 0;
    while i < props.len()
        invariant
            0 <= i <= props@.len(),
            out@.len() == i,
            forall|j: int| 0 <= j < i ==> #[trigger] out@[j].0 == props@[j].0 && out@[j].1@ == props@[j].1@,
        decreases props@.len() - i,
    {
        let (k, v) = &props[i];
        out.push((*k, v.clone()));
        i = i + 1;
    }
    proof {
        assert(props_view(out@) =~= props_view(props@));
    }
    out
}

/// Whether the `f64` with bit pattern `bits` is finite: its exponent is not all ones.
pub open spec fn f64_bits_finite(bits: u64) -> bool {
    (bits >> 52u64) & 0x7ffu64 != 0x7ffu64
}

/// Whether the `f32` with bit pattern `bits` is finite: its exponent is not all ones.
pub open spec fn f32_bits_finite(bits: u32) -> bool {
    (bits >> 23u32) & 0xffu32 != 0xffu32
}

pub fn f64_bits_is_finite(bits: u64) -> (r: bool)
    ensures
        r == f64_bits_finite(bits),
{
    (bits >> 52u64) & 0x7ffu64 != 0x7ffu64
}

pub fn f32_bits_is_finite(bits: u32) -> (r: bool)
    ensures
        r == f32_bits_finite(bits),
{
    (bits >> 23u32) & 0xffu32 != 0xffu32
}


/// The magnitude part of an `f32` bit pattern: everything but the sign bit.
pub open spec fn f32_bits_magnitude(bits: u32) -> int {
    if bits >= 0x8000_0000u32 {
        bits - 0x8000_0000int
    } else {
        bits as int
    }
}

/// Whether the `f32` with bit pattern `bits` is NaN: exponent all ones, mantissa not zero.
pub open spec fn f32_bits_nan(bits: u32) -> bool {
    f32_bits_magnitude(bits) > 0x7f80_0000
}

/// Where a non-NaN `f32` stands in the order of the reals: its magnitude, negated when
/// the sign bit is set (so both zeros stand at 0, and the infinities at the ends).
pub open spec fn f32_bits_rank(bits: u32) -> int {
    if bits >= 0x8000_0000u32 {
        -f32_bits_magnitude(bits)
    } else {
        f32_bits_magnitude(bits)
    }
}

/// `a < b` on the `f32`s with these bit patterns: false when either is NaN.
pub open spec fn f32_bits_lt(a: u32, b: u32) -> bool {
    !f32_bits_nan(a) && !f32_bits_nan(b) && f32_bits_rank(a) < f32_bits_rank(b)
}

/// Computes `a < b` on the `f32`s with these bit patterns.
pub fn f32_bits_less(a: u32, b: u32) -> (r: bool)
    ensures
        r == f32_bits_lt(a, b),
{
    let ma: u32 = if a >= 0x8000_0000 { a - 0x8000_0000 } else { a };
    let mb: u32 = if b >= 0x8000_0000 { b - 0x8000_0000 } else { b };
    if ma > 0x7f80_0000 || mb > 0x7f80_0000 {
        return false;
    }
    let ra: i64 = if a >= 0x8000_0000 { -(ma as i64) } else { ma as i64 };
    let rb: i64 = if b >= 0x8000_0000 { -(mb as i64) } else { mb as i64 };
    ra < rb
}

} // verus!
