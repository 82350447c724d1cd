use crate::complex::Complex;
use crate::error::FendError;
use crate::rat::{fits, lemma_normalize, normalize, Rat};
use crate::realnum::Real;
use vstd::bytes::{
    lemma_auto_spec_u64_to_from_le_bytes, spec_u64_from_le_bytes, spec_u64_to_le_bytes,
    u64_from_le_bytes, u64_to_le_bytes,
};
use vstd::prelude::*;
use vstd::slice::slice_subrange;

verus! {

/// The encoding of a rational with 64-bit parts: the numerator and then the denominator,
/// each as eight little-endian bytes of its two's complement.
pub open spec fn rat_bytes(q: Rat) -> Seq<u8> {
    spec_u64_to_le_bytes((q.n as i64) as u64) + spec_u64_to_le_bytes((q.d as i64) as u64)
}

/// The rational that sixteen bytes encode, if it is one that a `Real` can hold.
pub open spec fn decode_rat(b: Seq<u8>) -> Option<Rat> {
    let n = spec_u64_from_le_bytes(b.subrange(0, 8)) as i64;
    let d = spec_u64_from_le_bytes(b.subrange(8, 16)) as i64;
    let q = Rat { n: n as int, d: d as int };
    if fits(q) {
        Some(q)
    } else {
        None
    }
}

/// The encoding of a complex number: its real part, then its imaginary part.
pub open spec fn complex_bytes(z: Complex) -> Seq<u8> {
    rat_bytes(z.real@) + rat_bytes(z.imag@)
}

/// Casting an `i64` to `u64` and back gives it back.
proof fn lemma_cast_roundtrip(x: i64)
    ensures
        (x as u64) as i64 == x,
{
    assert((x as u64) as i64 == x) by (bit_vector);
}

/// Decoding an encoding gives back the rational.
pub proof fn lemma_rat_bytes(q: Rat)
    requires
        fits(q),
    ensures
        rat_bytes(q).len() == 16,
        decode_rat(rat_bytes(q)) == Some(q),
{
    lemma_auto_spec_u64_to_from_le_bytes();
    let b = rat_bytes(q);
    let b0 = spec_u64_to_le_bytes((q.n as i64) as u64);
    let b1 = spec_u64_to_le_bytes((q.d as i64) as u64);
    assert(b.subrange(0, 8) =~= b0);
    assert(b.subrange(8, 16) =~= b1);
    lemma_cast_roundtrip(q.n as i64);
    lemma_cast_roundtrip(q.d as i64);
}

impl Real {
    /// The sixteen-byte encoding of the value.
    pub fn serialize(&self) -> (v: Vec<u8>)
        ensures
            v@ == rat_bytes(self@),
    {
        let (n, d) = self.parts();
        let mut v = u64_to_le_bytes(n as u64);
        let mut w = u64_to_le_bytes(d as u64);
        v.append(&mut w);
        v
    }

    /// Reads a value from the first sixteen bytes, in lowest terms; `DeserializationError`
    /// when there are fewer, or when they do not encode a value with a positive denominator and
    /// a numerator above the most negative `i64`.
    pub fn deserialize(bytes: &[u8]) -> (r: Result<Real, FendError>)
        ensures
            bytes@.len() < 16 ==> r == Err::<Real, FendError>(FendError::DeserializationError),
            bytes@.len() >= 16 ==> match decode_rat(bytes@.subrange(0, 16)) {
                Some(q) => r matches Ok(x) && x@ == normalize(q),
                None => r == Err::<Real, FendError>(FendError::DeserializationError),
            },
    {
        if bytes.len() < 16 {
            return Err(FendError::DeserializationError);
        }
        let n = u64_from_le_bytes(slice_subrange(bytes, 0, 8)) as i64;
        let d = u64_from_le_bytes(slice_subrange(bytes, 8, 16)) as i64;
        proof {
            let b = bytes@.subrange(0, 16);
            assert(b.subrange(0, 8) =~= bytes@.subrange(0, 8));
            assert(b.subrange(8, 16) =~= bytes@.subrange(8, 16));
        }
        if d <= 0 || n == i64::MIN {
            return Err(FendError::DeserializationError);
        }
        proof {
            lemma_normalize(Rat { n: n as int, d: d as int });
        }
        Real::from_fraction(n as i128, d as i128)
    }
}

impl Complex {
    /// The thirty-two-byte encoding: the real part, then the imaginary part.
    pub fn serialize(&self) -> (v: Vec<u8>)
        ensures
            v@ == complex_bytes(*self),
    {
        let mut v = self.real.serialize();
        let mut w = self.imag.serialize();
        v.append(&mut w);
        v
    }

    /// Reads a complex number from the first thirty-two bytes, its parts in lowest terms.
    pub fn deserialize(bytes: &[u8]) -> (r: Result<Complex, FendError>)
        ensures
            bytes@.len() < 32 ==> r == Err::<Complex, FendError>(FendError::DeserializationError),
            bytes@.len() >= 32 ==> match (
                decode_rat(bytes@.subrange(0, 16)),
                decode_rat(bytes@.subrange(16, 32)),
            ) {
                (Some(a), Some(b)) => r matches Ok(z) && z.real@ == normalize(a) && z.imag@
                    == normalize(b),
                _ => r == Err::<Complex, FendError>(FendError::DeserializationError),
            },
    {
        if bytes.len() < 32 {
            return Err(FendError::DeserializationError);
        }
        let tail = slice_subrange(bytes, 16, 32);
        proof {
            assert(tail@.subrange(0, 16) =~= bytes@.subrange(16, 32));
        }
        let re = Real::deserialize(bytes)?;
        let im = Real::deserialize(tail)?;
        Ok(Complex { real: re, imag: im })
    }
}

/// Reading back what was written gives the number that was written.
pub proof fn law_serialize_roundtrip(z: Complex)
    requires
        fits(z.real@),
        fits(z.imag@),
    ensures
        complex_bytes(z).len() == 32,
        decode_rat(complex_bytes(z).subrange(0, 16)) == Some(z.real@),
        decode_rat(complex_bytes(z).subrange(16, 32)) == Some(z.imag@),
{
    lemma_rat_bytes(z.real@);
    lemma_rat_bytes(z.imag@);
    let b = complex_bytes(z);
    assert(b.subrange(0, 16) =~= rat_bytes(z.real@));
    assert(b.subrange(16, 32) =~= rat_bytes(z.imag@));
}

} // verus!
