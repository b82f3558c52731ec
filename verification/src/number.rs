//! Portable encoding of an arbitrary-precision signed rational.
//!
//! A rational travels through an archive as a sign flag plus two limb
//! sequences: the magnitudes of its numerator and denominator, each as
//! 64-bit words in ascending order of significance. The encoding is kept
//! canonical: no trailing zero limbs, a positive denominator, and a
//! non-negative sign for zero, so that equal rationals have equal triples.

use vstd::prelude::*;
use malachite::base::num::basic::traits::Zero;

verus! {

/// malachite's arbitrary-precision rational, opaque to the verifier. Its
/// own invariant keeps every value reduced to lowest terms, with a
/// positive denominator and a non-negative zero, so equal values have
/// equal representations.
#[verifier::external_type_specification]
#[verifier::external_body]
pub struct ExRational(malachite::Rational);

/// The canonical decomposition of a rational: whether it is non-negative,
/// and the ascending 64-bit limb sequences of its reduced numerator and
/// denominator magnitudes. It depends on the value alone; the trusted
/// conversions below relate it to what malachite computes.
pub uninterp spec fn rational_parts(n: malachite::Rational) -> (bool, Seq<u64>, Seq<u64>);

/// The portable sign-plus-limbs form of a rational number.
///
/// `sign` is true iff the value is non-negative (zero is canonically
/// non-negative). `num` and `den` hold the magnitudes of numerator and
/// denominator as 64-bit limbs, least significant first.
pub struct NumberStash {
    pub sign: bool,
    pub num: Vec<u64>,
    pub den: Vec<u64>,
}

/// Canonical shape of a limb sequence: the most significant limb, if any,
/// is non-zero, so a magnitude has exactly one representation.
pub open spec fn limbs_canonical(ls: Seq<u64>) -> bool {
    ls.len() > 0 ==> ls[ls.len() - 1] != 0
}

/// Canonical shape of a stashed number: both magnitudes canonical, the
/// denominator non-zero, and zero written with a non-negative sign.
pub open spec fn number_seq_wf(sign: bool, num: Seq<u64>, den: Seq<u64>) -> bool {
    &&& limbs_canonical(num)
    &&& limbs_canonical(den)
    &&& den.len() > 0
    &&& (num.len() == 0 ==> sign)
}

pub open spec fn number_wf(n: NumberStash) -> bool {
    number_seq_wf(n.sign, n.num@, n.den@)
}

impl NumberStash {
    pub open spec fn wf(self) -> bool {
        number_wf(self)
    }
}

/// Copies a limb vector element by element.
pub fn copy_limbs(src: &Vec<u64>) -> (r: Vec<u64>)
    ensures
        r@ == src@,
{
    let mut out: Vec<u64> = Vec::new();
    let mut k: usize = 0;
    while k < src.len()
        invariant
            k <= src@.len(),
            out@ == src@.subrange(0, k as int),
        decreases src@.len() - k,
    {
        out.push(src[k]);
        k = k + 1;
        proof {
            assert(out@ =~= src@.subrange(0, k as int));
        }
    }
    proof {
        assert(out@ =~= src@);
    }
    out
}

/// Relies on malachite: a `Rational` is stored reduced, with a positive
/// denominator and a non-negative zero; `into_numerator_and_denominator`
/// hands out those parts, `Natural::into_limbs_asc` writes a magnitude as
/// ascending limbs with no trailing zero (empty for zero), and `>=` on
/// rationals orders by value, so the sign flag is true exactly for
/// non-negative values. Together these compute the canonical decomposition
/// that `rational_parts` names, which is therefore in canonical shape.
#[verifier::external_body]
pub fn rational_to_stash(n: &malachite::Rational) -> (r: NumberStash)
    ensures
        (r.sign, r.num@, r.den@) == rational_parts(*n),
        number_wf(r),
{
    let sign = *n >= malachite::Rational::ZERO;
    let (num, den) = n.clone().into_numerator_and_denominator();
    NumberStash { sign, num: num.into_limbs_asc(), den: den.into_limbs_asc() }
}

/// Relies on `Rational::from_sign_and_naturals` and
/// `Natural::from_owned_limbs_asc`: rebuilding a rational from a sign and
/// two limb magnitudes yields the rational with that value, so rebuilding
/// one from its own canonical decomposition yields that rational again
/// (equal rational values coincide, since both are stored reduced). The
/// canonical shape required here makes the denominator non-zero, so the
/// call cannot panic.
#[verifier::external_body]
pub fn rational_from_stash(s: &NumberStash) -> (r: malachite::Rational)
    requires
        number_wf(*s),
    ensures
        forall|m: malachite::Rational| rational_parts(m) == (s.sign, s.num@, s.den@) ==> r == m,
{
    let num = malachite::Natural::from_owned_limbs_asc(s.num.clone());
    let den = malachite::Natural::from_owned_limbs_asc(s.den.clone());
    malachite::Rational::from_sign_and_naturals(s.sign, num, den)
}

/// Encoding a rational as its portable triple and decoding that triple
/// yields the same rational: the number codec is lossless.
pub fn number_round_trip(n: &malachite::Rational) -> (r: malachite::Rational)
    ensures
        r == *n,
{
    let s = rational_to_stash(n);
    rational_from_stash(&s)
}

/// Copies a stashed number.
pub fn copy_number(n: &NumberStash) -> (r: NumberStash)
    ensures
        r.sign == n.sign,
        r.num@ == n.num@,
        r.den@ == n.den@,
{
    NumberStash { sign: n.sign, num: copy_limbs(&n.num), den: copy_limbs(&n.den) }
}

} // verus!
