//! The scalar field and the first group of the BN254 curve.
//!
//! Field elements are held as the 32 little-endian bytes of their
//! representatives. Arithmetic is that of the `halo2curves` crate, reached
//! through the private functions at the end of this file, which map such byte
//! strings to such byte strings.

use crate::bytes;
use crate::curve::Curve;
use crate::field;
use crate::field::Field;
use crate::helpers::SerdePrimeField;
use crate::rng::RandomSource;
use vstd::arithmetic::div_mod;
use vstd::arithmetic::power;
use halo2curves::bn256::Fq;
use vstd::prelude::*;

verus! {

/// The order of the BN254 groups, and the modulus of [`Fr`].
pub open spec fn fr_modulus() -> int {
    0x30644e72e131a029b85045b68181585d2833e84879b9709143e1f593f0000001int
}

/// The factor by which the internal representation of an element differs from
/// its representative: `2^256` modulo the modulus.
pub open spec fn fr_radix() -> int {
    0x0e0a77c19a07df2f666ea36f7879462e36fc76959f60cd29ac96341c4ffffffbint
}

/// The inverse of [`fr_radix`].
pub open spec fn fr_radix_inv() -> int {
    0x15ebf95182c5551cc8260de4aeb85d5d090ef5a9e111ec87dc5ba0056db1194eint
}

/// 32 bytes that stand for an integer below the modulus.
pub open spec fn is_canonical(bytes: Seq<u8>) -> bool {
    bytes.len() == 32 && bytes::le_value(bytes) < fr_modulus()
}

/// An element of the scalar field of BN254.
#[derive(Clone, Copy, Debug, PartialEq, Eq)]
pub struct Fr {
    repr: [u8; 32],
}

impl Fr {
    #[verifier::type_invariant]
    spec fn inv(self) -> bool {
        is_canonical(self.repr@)
    }
}

proof fn lemma_modulus_width()
    ensures
        fr_modulus() < power::pow(256, 32),
{
    reveal_with_fuel(power::pow, 33);
}

proof fn lemma_radix()
    ensures
        (fr_radix() * fr_radix_inv()) % fr_modulus() == 1,
{
}

impl Field for Fr {
    open spec fn modulus() -> int {
        fr_modulus()
    }

    closed spec fn value(&self) -> int {
        bytes::le_value(self.repr@) % fr_modulus()
    }

    proof fn lemma_modulus() {
    }

    proof fn lemma_value(&self) {
    }

    fn zero() -> (r: Self) {
        let repr = [0u8; 32];
        proof {
            lemma_le_value_small(repr@, 0);
        }
        Fr { repr }
    }

    fn one() -> (r: Self) {
        let mut repr = [0u8; 32];
        repr[0] = 1;
        proof {
            lemma_le_value_small(repr@, 1);
        }
        Fr { repr }
    }

    fn is_equal(&self, other: &Self) -> (r: bool) {
        proof {
            use_type_invariant(self);
            use_type_invariant(other);
            self.lemma_value_is_repr();
            other.lemma_value_is_repr();
        }
        let mut i: usize = 0;
        while i < 32
            invariant
                i <= 32,
                forall|j: int| 0 <= j < i ==> self.repr@[j] == other.repr@[j],
                is_canonical(self.repr@),
                is_canonical(other.repr@),
                self.value() == bytes::le_value(self.repr@),
                other.value() == bytes::le_value(other.repr@),
            decreases 32 - i,
        {
            if self.repr[i] != other.repr[i] {
                proof {
                    bytes::lemma_le_bytes_of_value(self.repr@);
                    bytes::lemma_le_bytes_of_value(other.repr@);
                }
                return false;
            }
            i += 1;
        }
        assert(self.repr@ =~= other.repr@);
        true
    }

    fn add(&self, rhs: &Self) -> (r: Self) {
        proof {
            use_type_invariant(self);
            use_type_invariant(rhs);
        }
        let r = Fr { repr: fr_add(self.repr, rhs.repr) };
        proof {
            self.lemma_value_is_repr();
            rhs.lemma_value_is_repr();
            r.lemma_value_is_repr();
        }
        r
    }

    fn sub(&self, rhs: &Self) -> (r: Self) {
        proof {
            use_type_invariant(self);
            use_type_invariant(rhs);
        }
        let r = Fr { repr: fr_sub(self.repr, rhs.repr) };
        proof {
            self.lemma_value_is_repr();
            rhs.lemma_value_is_repr();
            r.lemma_value_is_repr();
        }
        r
    }

    fn mul(&self, rhs: &Self) -> (r: Self) {
        proof {
            use_type_invariant(self);
            use_type_invariant(rhs);
        }
        let r = Fr { repr: fr_mul(self.repr, rhs.repr) };
        proof {
            self.lemma_value_is_repr();
            rhs.lemma_value_is_repr();
            r.lemma_value_is_repr();
        }
        r
    }

    fn pow(&self, exp: u64) -> (r: Self) {
        proof {
            use_type_invariant(self);
        }
        let r = Fr { repr: fr_pow(self.repr, exp) };
        proof {
            self.lemma_value_is_repr();
            r.lemma_value_is_repr();
        }
        r
    }

    fn batch_invert(values: Vec<Self>) -> (r: Vec<Self>) {
        let mut reprs: Vec<[u8; 32]> = Vec::new();
        let n = values.len();
        let mut i: usize = 0;
        while i < n
            invariant
                i <= n,
                n == values@.len(),
                reprs@.len() == i,
                forall|j: int| 0 <= j < i ==> #[trigger] reprs@[j] == values@[j].repr,
                forall|j: int| 0 <= j < i ==> is_canonical(#[trigger] reprs@[j]@),
            decreases n - i,
        {
            let x = values[i];
            proof {
                use_type_invariant(&x);
            }
            reprs.push(x.repr);
            i += 1;
        }
        let inverses = fr_batch_invert(reprs);
        let mut r: Vec<Self> = Vec::new();
        let mut i: usize = 0;
        while i < n
            invariant
                i <= n,
                n == values@.len(),
                reprs@.len() == n,
                inverses@.len() == n,
                r@.len() == i,
                forall|j: int| 0 <= j < n ==> #[trigger] reprs@[j] == values@[j].repr,
                forall|j: int| 0 <= j < n ==> is_canonical(#[trigger] reprs@[j]@),
                forall|j: int|
                    0 <= j < n ==> is_canonical(#[trigger] inverses@[j]@)
                        && field::is_inverse_or_zero(
                        bytes::le_value(reprs@[j]@),
                        bytes::le_value(inverses@[j]@),
                        fr_modulus(),
                    ),
                forall|j: int| 0 <= j < i ==> (#[trigger] r@[j]).repr == inverses@[j],
            decreases n - i,
        {
            r.push(Fr { repr: inverses[i] });
            i += 1;
        }
        proof {
            assert forall|j: int| 0 <= j < n implies field::is_inverse_or_zero(
                values@[j].value(),
                (#[trigger] r@[j]).value(),
                fr_modulus(),
            ) by {
                assert(is_canonical(reprs@[j]@));
                assert(is_canonical(inverses@[j]@));
                values@[j].lemma_value_is_repr();
                r@[j].lemma_value_is_repr();
            }
        }
        r
    }
}

/// An element is encoded as the 32 little-endian bytes of its representative, or of
/// that times `2^256`, reduced. Bytes stand for an element if there are 32 of them and
/// the integer that they stand for is below the modulus.
pub proof fn lemma_encodings(value: int, bytes: Seq<u8>)
    requires
        0 <= value < fr_modulus(),
    ensures
        Fr::byte_len() == 32,
        Fr::repr_bytes(value).len() == 32,
        bytes::le_value(Fr::repr_bytes(value)) == value,
        Fr::raw_bytes(value).len() == 32,
        bytes::le_value(Fr::raw_bytes(value)) == (value * power::pow(256, 32)) % fr_modulus(),
        Fr::repr_value(bytes) is Some <==> bytes.len() == 32 && bytes::le_value(bytes)
            < fr_modulus(),
        Fr::repr_value(bytes) matches Some(v) ==> v == bytes::le_value(bytes),
        Fr::raw_value(bytes) is Some <==> bytes.len() == 32 && bytes::le_value(bytes)
            < fr_modulus(),
        Fr::raw_value(bytes) matches Some(v) ==> 0 <= v < fr_modulus() && (v * power::pow(256, 32))
            % fr_modulus() == bytes::le_value(bytes),
        0 <= Fr::raw_residue(bytes) < fr_modulus(),
        (Fr::raw_residue(bytes) * power::pow(256, 32)) % fr_modulus() == bytes::le_value(bytes)
            % fr_modulus(),
{
    let m = fr_modulus();
    let p = power::pow(256, 32);
    lemma_modulus_width();
    assert(p % m == fr_radix()) by {
        reveal_with_fuel(power::pow, 33);
    }
    bytes::lemma_le_value_of_bytes(value, 32);
    bytes::lemma_le_value_of_bytes((value * fr_radix()) % m, 32);
    bytes::lemma_le_value_bound(bytes);
    div_mod::lemma_mul_mod_noop_right(value, p, m);
    let b = bytes::le_value(bytes);
    let r = (b * fr_radix_inv()) % m;
    lemma_radix();
    div_mod::lemma_mul_mod_noop_right(r, p, m);
    div_mod::lemma_mul_mod_noop_left(b * fr_radix_inv(), fr_radix(), m);
    assert(b * fr_radix_inv() * fr_radix() == b * (fr_radix() * fr_radix_inv()))
        by (nonlinear_arith);
    div_mod::lemma_mul_mod_noop_right(b, fr_radix() * fr_radix_inv(), m);
    assert((r * p) % m == b % m);
    if b < m {
        div_mod::lemma_small_mod(b as nat, m as nat);
    }
}

impl SerdePrimeField for Fr {
    open spec fn byte_len() -> nat {
        32
    }

    open spec fn repr_bytes(value: int) -> Seq<u8> {
        bytes::le_bytes(value, 32)
    }

    open spec fn raw_bytes(value: int) -> Seq<u8> {
        bytes::le_bytes((value * fr_radix()) % fr_modulus(), 32)
    }

    open spec fn repr_value(bytes: Seq<u8>) -> Option<int> {
        if is_canonical(bytes) {
            Some(bytes::le_value(bytes))
        } else {
            None
        }
    }

    open spec fn raw_value(bytes: Seq<u8>) -> Option<int> {
        if is_canonical(bytes) {
            Some((bytes::le_value(bytes) * fr_radix_inv()) % fr_modulus())
        } else {
            None
        }
    }

    open spec fn raw_residue(bytes: Seq<u8>) -> int {
        (bytes::le_value(bytes) * fr_radix_inv()) % fr_modulus()
    }

    proof fn lemma_raw_residue(bytes: Seq<u8>) {
    }

    proof fn lemma_byte_len() {
    }

    proof fn lemma_encoding(value: int) {
        lemma_modulus_width();
        bytes::lemma_le_value_of_bytes(value, 32);
        let raw = (value * fr_radix()) % fr_modulus();
        bytes::lemma_le_value_of_bytes(raw, 32);
        lemma_radix_cancels(value);
    }

    fn num_bytes() -> (n: usize) {
        32
    }

    fn to_repr(&self) -> (bytes: Vec<u8>) {
        proof {
            use_type_invariant(self);
            self.lemma_value_is_repr();
            bytes::lemma_le_bytes_of_value(self.repr@);
        }
        let mut bytes: Vec<u8> = Vec::new();
        let mut i: usize = 0;
        while i < 32
            invariant
                i <= 32,
                bytes@ == self.repr@.take(i as int),
            decreases 32 - i,
        {
            bytes.push(self.repr[i]);
            i += 1;
            assert(self.repr@.take(i as int) =~= self.repr@.take(i - 1).push(self.repr@[i - 1]));
        }
        assert(self.repr@.take(32) =~= self.repr@);
        bytes
    }

    fn to_raw_bytes(&self) -> (bytes: Vec<u8>) {
        proof {
            use_type_invariant(self);
            self.lemma_value_is_repr();
        }
        let bytes = fr_to_raw_bytes(self.repr);
        proof {
            bytes::lemma_le_bytes_of_value(bytes@);
        }
        bytes
    }

    fn from_repr(bytes: &[u8]) -> (r: Option<Self>) {
        match fr_from_repr(bytes) {
            Some(repr) => {
                let r = Fr { repr };
                proof {
                    r.lemma_value_is_repr();
                }
                Some(r)
            },
            None => None,
        }
    }

    fn from_raw_bytes(bytes: &[u8]) -> (r: Option<Self>) {
        match fr_from_raw_bytes(bytes) {
            Some(repr) => {
                let r = Fr { repr };
                proof {
                    r.lemma_value_is_repr();
                }
                Some(r)
            },
            None => None,
        }
    }

    fn from_raw_bytes_unchecked(bytes: &[u8]) -> (r: Self) {
        let r = Fr { repr: fr_from_raw_bytes_unchecked(bytes) };
        proof {
            r.lemma_value_is_repr();
        }
        r
    }
}

/// Multiplying by the radix and then by its inverse changes nothing.
proof fn lemma_radix_cancels(v: int)
    requires
        0 <= v < fr_modulus(),
    ensures
        (((v * fr_radix()) % fr_modulus()) * fr_radix_inv()) % fr_modulus() == v,
{
    let m = fr_modulus();
    let r = fr_radix();
    let i = fr_radix_inv();
    lemma_radix();
    div_mod::lemma_mul_mod_noop_left(v * r, i, m);
    assert((v * r) * i == v * (r * i)) by (nonlinear_arith);
    div_mod::lemma_mul_mod_noop_right(v, r * i, m);
    div_mod::lemma_small_mod(v as nat, m as nat);
}

impl Fr {
    proof fn lemma_value_is_repr(&self)
        requires
            is_canonical(self.repr@),
        ensures
            self.value() == bytes::le_value(self.repr@),
    {
        bytes::lemma_le_value_bound(self.repr@);
        div_mod::lemma_small_mod(bytes::le_value(self.repr@) as nat, fr_modulus() as nat);
    }
}

/// Bytes that are all zero but for the first stand for the first.
proof fn lemma_le_value_small(bytes: Seq<u8>, low: u8)
    requires
        bytes.len() > 0,
        bytes[0] == low,
        forall|i: int| 1 <= i < bytes.len() ==> bytes[i] == 0,
    ensures
        bytes::le_value(bytes) == low,
    decreases bytes.len(),
{
    let rest = bytes.skip(1);
    if rest.len() > 0 {
        lemma_le_value_small(rest, 0);
    } else {
        assert(bytes::le_value(rest) == 0);
    }
}

/// Field elements drawn from the random number generator of the operating
/// system.
pub struct OsRandom {
    drawn: Ghost<Seq<Fr>>,
}

impl OsRandom {
    /// The elements that have been drawn, in order.
    pub closed spec fn drawn(&self) -> Seq<Fr> {
        self.drawn@
    }

    /// A source from which nothing has been drawn.
    pub fn new() -> (r: Self)
        ensures
            r.drawn() == Seq::<Fr>::empty(),
    {
        OsRandom { drawn: Ghost(Seq::empty()) }
    }
}

impl RandomSource<Fr> for OsRandom {
    open spec fn draws(&self, later: &Self, value: Fr) -> bool {
        later.drawn() == self.drawn().push(value)
    }

    fn random(&mut self) -> (r: Fr) {
        let r = Fr { repr: fr_random() };
        proof {
            self.drawn@ = self.drawn@.push(r);
        }
        r
    }
}

/// The modulus of the field that the curve is defined over.
pub open spec fn fq_modulus() -> int {
    0x30644e72e131a029b85045b68181585d97816a916871ca8d3c208c16d87cfd47int
}

/// 32 bytes that stand for an integer below the modulus of the base field.
pub open spec fn is_coordinate(bytes: Seq<u8>) -> bool {
    bytes.len() == 32 && bytes::le_value(bytes) < fq_modulus()
}

/// A point in homogeneous coordinates, each the 32 little-endian bytes of an
/// element of the base field. The identity has a last coordinate of zero.
#[derive(Clone, Copy, Debug)]
pub struct G1 {
    x: [u8; 32],
    y: [u8; 32],
    z: [u8; 32],
}

/// A point in affine coordinates, each the 32 little-endian bytes of an
/// element of the base field. The identity is written as a pair of zeros.
#[derive(Clone, Copy, Debug, PartialEq, Eq)]
pub struct G1Affine {
    x: [u8; 32],
    y: [u8; 32],
}

/// `(ax, ay)` are the affine coordinates of the point with homogeneous
/// coordinates `(x, y, z)`.
pub open spec fn is_quotient(x: int, y: int, z: int, ax: int, ay: int) -> bool {
    if z == 0 {
        ax == 0 && ay == 0
    } else {
        (ax * z) % fq_modulus() == x && (ay * z) % fq_modulus() == y
    }
}

impl G1 {
    #[verifier::type_invariant]
    spec fn inv(self) -> bool {
        is_coordinate(self.x@) && is_coordinate(self.y@) && is_coordinate(self.z@)
    }

    /// The three coordinates as integers.
    pub closed spec fn coordinates(&self) -> (int, int, int) {
        (bytes::le_value(self.x@), bytes::le_value(self.y@), bytes::le_value(self.z@))
    }

    /// The point with the given homogeneous coordinates. `None` exactly if one
    /// of them is not below the modulus of the base field.
    pub fn from_coordinates(x: [u8; 32], y: [u8; 32], z: [u8; 32]) -> (r: Option<G1>)
        ensures
            r is Some <==> is_coordinate(x@) && is_coordinate(y@) && is_coordinate(z@),
            r is Some ==> r->0.coordinates() == (
                bytes::le_value(x@),
                bytes::le_value(y@),
                bytes::le_value(z@),
            ),
    {
        if fq_is_canonical(x) && fq_is_canonical(y) && fq_is_canonical(z) {
            Some(G1 { x, y, z })
        } else {
            None
        }
    }
}

impl G1Affine {
    /// The two coordinates as integers.
    pub closed spec fn coordinates(&self) -> (int, int) {
        (bytes::le_value(self.x@), bytes::le_value(self.y@))
    }

    /// The bytes of the two coordinates.
    pub fn to_coordinates(&self) -> (r: ([u8; 32], [u8; 32]))
        ensures
            self.coordinates() == (bytes::le_value(r.0@), bytes::le_value(r.1@)),
    {
        (self.x, self.y)
    }
}

impl Curve for G1 {
    type AffineRepr = G1Affine;

    open spec fn is_affine_form(&self, a: G1Affine) -> bool {
        let (x, y, z) = self.coordinates();
        let (ax, ay) = a.coordinates();
        is_quotient(x, y, z, ax, ay)
    }

    fn batch_normalize(points: &Vec<Self>) -> (r: Vec<G1Affine>) {
        let mut coordinates: Vec<([u8; 32], [u8; 32], [u8; 32])> = Vec::new();
        let n = points.len();
        let mut i: usize = 0;
        while i < n
            invariant
                i <= n,
                n == points@.len(),
                coordinates@.len() == i,
                forall|j: int|
                    0 <= j < i ==> #[trigger] coordinates@[j] == (
                        points@[j].x,
                        points@[j].y,
                        points@[j].z,
                    ),
                forall|j: int|
                    0 <= j < i ==> is_coordinate((#[trigger] coordinates@[j]).0@)
                        && is_coordinate(coordinates@[j].1@) && is_coordinate(coordinates@[j].2@),
            decreases n - i,
        {
            let p = points[i];
            proof {
                use_type_invariant(&p);
            }
            coordinates.push((p.x, p.y, p.z));
            i += 1;
        }
        let affine = g1_batch_normalize(&coordinates);
        let mut r: Vec<G1Affine> = Vec::new();
        let mut i: usize = 0;
        while i < n
            invariant
                i <= n,
                n == affine@.len(),
                r@.len() == i,
                forall|j: int|
                    0 <= j < i ==> (#[trigger] r@[j]).x == affine@[j].0 && r@[j].y == affine@[j].1,
            decreases n - i,
        {
            let (x, y) = affine[i];
            r.push(G1Affine { x, y });
            i += 1;
        }
        proof {
            assert forall|j: int| 0 <= j < n implies points@[j].is_affine_form(
                #[trigger] r@[j],
            ) by {
                assert(coordinates@[j] == (points@[j].x, points@[j].y, points@[j].z));
                assert(affine@[j] == (r@[j].x, r@[j].y));
            }
        }
        r
    }
}

/// Addition in `halo2curves::bn256::Fr`: the representative of the sum is the
/// sum of the representatives, reduced.
#[verifier::external_body]
fn fr_add(a: [u8; 32], b: [u8; 32]) -> (r: [u8; 32])
    requires
        is_canonical(a@),
        is_canonical(b@),
    ensures
        is_canonical(r@),
        bytes::le_value(r@) == (bytes::le_value(a@) + bytes::le_value(b@)) % fr_modulus(),
{
    let a = <halo2curves::bn256::Fr as ff::PrimeField>::from_repr(a.into()).unwrap();
    let b = <halo2curves::bn256::Fr as ff::PrimeField>::from_repr(b.into()).unwrap();
    ff::PrimeField::to_repr(&(a + b)).into()
}

/// Subtraction in `halo2curves::bn256::Fr`: the representative of the
/// difference is the difference of the representatives, reduced.
#[verifier::external_body]
fn fr_sub(a: [u8; 32], b: [u8; 32]) -> (r: [u8; 32])
    requires
        is_canonical(a@),
        is_canonical(b@),
    ensures
        is_canonical(r@),
        bytes::le_value(r@) == (bytes::le_value(a@) - bytes::le_value(b@)) % fr_modulus(),
{
    let a = <halo2curves::bn256::Fr as ff::PrimeField>::from_repr(a.into()).unwrap();
    let b = <halo2curves::bn256::Fr as ff::PrimeField>::from_repr(b.into()).unwrap();
    ff::PrimeField::to_repr(&(a - b)).into()
}

/// Multiplication in `halo2curves::bn256::Fr`: the representative of the
/// product is the product of the representatives, reduced.
#[verifier::external_body]
fn fr_mul(a: [u8; 32], b: [u8; 32]) -> (r: [u8; 32])
    requires
        is_canonical(a@),
        is_canonical(b@),
    ensures
        is_canonical(r@),
        bytes::le_value(r@) == (bytes::le_value(a@) * bytes::le_value(b@)) % fr_modulus(),
{
    let a = <halo2curves::bn256::Fr as ff::PrimeField>::from_repr(a.into()).unwrap();
    let b = <halo2curves::bn256::Fr as ff::PrimeField>::from_repr(b.into()).unwrap();
    ff::PrimeField::to_repr(&(a * b)).into()
}

/// `ff::Field::pow` on `halo2curves::bn256::Fr`, with an exponent of one
/// limb: the representative of the power is the power of the representative,
/// reduced.
#[verifier::external_body]
fn fr_pow(a: [u8; 32], exp: u64) -> (r: [u8; 32])
    requires
        is_canonical(a@),
    ensures
        is_canonical(r@),
        bytes::le_value(r@) == power::pow(bytes::le_value(a@), exp as nat) % fr_modulus(),
{
    let a = <halo2curves::bn256::Fr as ff::PrimeField>::from_repr(a.into()).unwrap();
    ff::PrimeField::to_repr(&ff::Field::pow(&a, [exp])).into()
}

/// `ff::BatchInvert::batch_invert` on `halo2curves::bn256::Fr`: every nonzero
/// element is replaced by its inverse, and zeros are left as they are.
#[verifier::external_body]
fn fr_batch_invert(values: Vec<[u8; 32]>) -> (r: Vec<[u8; 32]>)
    requires
        forall|i: int| 0 <= i < values@.len() ==> is_canonical(#[trigger] values@[i]@),
    ensures
        r@.len() == values@.len(),
        forall|i: int|
            0 <= i < r@.len() ==> is_canonical(#[trigger] r@[i]@)
                && field::is_inverse_or_zero(
                bytes::le_value(values@[i]@),
                bytes::le_value(r@[i]@),
                fr_modulus(),
            ),
{
    let mut elements: Vec<halo2curves::bn256::Fr> = values
        .into_iter()
        .map(|v| <halo2curves::bn256::Fr as ff::PrimeField>::from_repr(v.into()).unwrap())
        .collect();
    ff::BatchInvert::batch_invert(elements.iter_mut());
    elements.iter().map(|e| ff::PrimeField::to_repr(e).into()).collect()
}

/// `ff::PrimeField::from_repr` on `halo2curves::bn256::Fr`: accepts exactly the
/// little-endian bytes of integers below the modulus, which are also the bytes
/// that the element is written back as.
#[verifier::external_body]
fn fr_from_repr(bytes: &[u8]) -> (r: Option<[u8; 32]>)
    requires
        bytes@.len() == 32,
    ensures
        r is Some <==> is_canonical(bytes@),
        r is Some ==> r->0@ == bytes@,
{
    let repr: [u8; 32] = bytes.try_into().unwrap();
    let element = <halo2curves::bn256::Fr as ff::PrimeField>::from_repr(repr.into());
    Option::<halo2curves::bn256::Fr>::from(element).map(|e| ff::PrimeField::to_repr(&e).into())
}

/// `SerdeObject::from_raw_bytes` on `halo2curves::bn256::Fr`: accepts exactly
/// the little-endian bytes of integers below the modulus, taken to be the
/// representative times `2^256`.
#[verifier::external_body]
fn fr_from_raw_bytes(bytes: &[u8]) -> (r: Option<[u8; 32]>)
    requires
        bytes@.len() == 32,
    ensures
        r is Some <==> is_canonical(bytes@),
        r is Some ==> is_canonical(r->0@) && bytes::le_value(r->0@) == (bytes::le_value(bytes@)
            * fr_radix_inv()) % fr_modulus(),
{
    <halo2curves::bn256::Fr as halo2curves::serde::SerdeObject>::from_raw_bytes(bytes)
        .map(|e| ff::PrimeField::to_repr(&e).into())
}

/// `SerdeObject::from_raw_bytes_unchecked` on `halo2curves::bn256::Fr`: takes
/// any 32 bytes to be the representative times `2^256`, without comparing them
/// to the modulus. The element is written back reduced.
#[verifier::external_body]
fn fr_from_raw_bytes_unchecked(bytes: &[u8]) -> (r: [u8; 32])
    requires
        bytes@.len() == 32,
    ensures
        is_canonical(r@),
        bytes::le_value(r@) == (bytes::le_value(bytes@) * fr_radix_inv()) % fr_modulus(),
{
    let e =
        <halo2curves::bn256::Fr as halo2curves::serde::SerdeObject>::from_raw_bytes_unchecked(bytes);
    ff::PrimeField::to_repr(&e).into()
}

/// `SerdeObject::to_raw_bytes` on `halo2curves::bn256::Fr`: the little-endian
/// bytes of the representative times `2^256`, reduced.
#[verifier::external_body]
fn fr_to_raw_bytes(a: [u8; 32]) -> (r: Vec<u8>)
    requires
        is_canonical(a@),
    ensures
        r@.len() == 32,
        bytes::le_value(r@) == (bytes::le_value(a@) * fr_radix()) % fr_modulus(),
{
    let a = <halo2curves::bn256::Fr as ff::PrimeField>::from_repr(a.into()).unwrap();
    halo2curves::serde::SerdeObject::to_raw_bytes(&a)
}

/// `ff::Field::random` on `halo2curves::bn256::Fr`, with the `OsRng` generator
/// of `rand_core`: some element of the field.
#[verifier::external_body]
fn fr_random() -> (r: [u8; 32])
    ensures
        is_canonical(r@),
{
    let e = <halo2curves::bn256::Fr as ff::Field>::random(rand_core::OsRng);
    ff::PrimeField::to_repr(&e).into()
}

/// `ff::PrimeField::from_repr` on `halo2curves::bn256::Fq`: accepts exactly the
/// little-endian bytes of integers below the modulus.
#[verifier::external_body]
fn fq_is_canonical(bytes: [u8; 32]) -> (r: bool)
    ensures
        r == is_coordinate(bytes@),
{
    <Fq as ff::PrimeField>::from_repr(bytes.into()).is_some().into()
}

/// `group::Curve::batch_normalize` on `halo2curves::bn256::G1`: divides the
/// first two coordinates by the third, and maps points with a third coordinate
/// of zero to a pair of zeros.
#[verifier::external_body]
fn g1_batch_normalize(points: &Vec<([u8; 32], [u8; 32], [u8; 32])>) -> (r: Vec<
    ([u8; 32], [u8; 32]),
>)
    requires
        forall|i: int|
            0 <= i < points@.len() ==> is_coordinate((#[trigger] points@[i]).0@)
                && is_coordinate(points@[i].1@) && is_coordinate(points@[i].2@),
    ensures
        r@.len() == points@.len(),
        forall|i: int|
            0 <= i < r@.len() ==> is_coordinate((#[trigger] r@[i]).0@) && is_coordinate(r@[i].1@)
                && is_quotient(
                bytes::le_value(points@[i].0@),
                bytes::le_value(points@[i].1@),
                bytes::le_value(points@[i].2@),
                bytes::le_value(r@[i].0@),
                bytes::le_value(r@[i].1@),
            ),
{
    let fq = |b: [u8; 32]| <Fq as ff::PrimeField>::from_repr(b.into()).unwrap();
    let p: Vec<halo2curves::bn256::G1> = points
        .iter()
        .map(|(x, y, z)| halo2curves::bn256::G1 { x: fq(*x), y: fq(*y), z: fq(*z) })
        .collect();
    let identity = <halo2curves::bn256::G1Affine as group::prime::PrimeCurveAffine>::identity();
    let mut q = vec![identity; p.len()];
    group::Curve::batch_normalize(&p, &mut q);
    q.iter()
        .map(|a| (ff::PrimeField::to_repr(&a.x).into(), ff::PrimeField::to_repr(&a.y).into()))
        .collect()
}

} // verus!
