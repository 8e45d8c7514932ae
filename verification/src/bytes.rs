//! Integers as little-endian and big-endian byte strings.

use vstd::arithmetic::div_mod;
use vstd::arithmetic::power;
use vstd::prelude::*;

verus! {

/// The integer that a little-endian byte string stands for.
pub open spec fn le_value(bytes: Seq<u8>) -> int
    decreases bytes.len(),
{
    if bytes.len() == 0 {
        0
    } else {
        bytes[0] as int + 256 * le_value(bytes.skip(1))
    }
}

/// The `len` low bytes of `v`, least significant byte first.
pub open spec fn le_bytes(v: int, len: nat) -> Seq<u8>
    decreases len,
{
    if len == 0 {
        Seq::empty()
    } else {
        seq![(v % 256) as u8] + le_bytes(v / 256, (len - 1) as nat)
    }
}

/// A byte string of length `n` stands for an integer below `256^n`.
pub proof fn lemma_le_value_bound(bytes: Seq<u8>)
    ensures
        0 <= le_value(bytes) < power::pow(256, bytes.len()),
    decreases bytes.len(),
{
    reveal(power::pow);
    if bytes.len() > 0 {
        lemma_le_value_bound(bytes.skip(1));
        assert(power::pow(256, bytes.len()) == 256 * power::pow(256, bytes.skip(1).len()));
    }
}

/// Writing an integer as bytes and reading it back gives the integer.
pub proof fn lemma_le_value_of_bytes(v: int, len: nat)
    requires
        0 <= v < power::pow(256, len),
    ensures
        le_bytes(v, len).len() == len,
        le_value(le_bytes(v, len)) == v,
    decreases len,
{
    reveal(power::pow);
    if len > 0 {
        let rest = (len - 1) as nat;
        assert(power::pow(256, len) == 256 * power::pow(256, rest));
        div_mod::lemma_fundamental_div_mod(v, 256);
        assert(0 <= v / 256 < power::pow(256, rest)) by (nonlinear_arith)
            requires
                0 <= v < 256 * power::pow(256, rest),
        ;
        lemma_le_value_of_bytes(v / 256, rest);
        let b = le_bytes(v, len);
        assert(b.skip(1) =~= le_bytes(v / 256, rest));
        assert(b[0] == (v % 256) as u8);
    }
}

/// Reading bytes as an integer and writing it back gives the bytes.
pub proof fn lemma_le_bytes_of_value(bytes: Seq<u8>)
    ensures
        le_bytes(le_value(bytes), bytes.len()) == bytes,
    decreases bytes.len(),
{
    if bytes.len() > 0 {
        let rest = bytes.skip(1);
        lemma_le_bytes_of_value(rest);
        lemma_le_value_bound(rest);
        div_mod::lemma_fundamental_div_mod_converse(
            le_value(bytes),
            256,
            le_value(rest),
            bytes[0] as int,
        );
        assert(le_bytes(le_value(bytes), bytes.len()) =~= bytes);
    } else {
        assert(le_bytes(le_value(bytes), bytes.len()) =~= bytes);
    }
}

/// The integer that a little-endian byte string stands for is the sum of its bytes
/// times powers of 256: one more byte adds itself times the next power.
pub proof fn lemma_le_value_of_one_more(bytes: Seq<u8>, b: u8)
    ensures
        le_value(Seq::<u8>::empty()) == 0,
        le_value(bytes.push(b)) == le_value(bytes) + b * power::pow(256, bytes.len()),
    decreases bytes.len(),
{
    let all = bytes.push(b);
    let n = bytes.len();
    if n == 0 {
        power::lemma_pow0(256);
        assert(all.skip(1) =~= Seq::empty());
        assert(le_value(all.skip(1)) == 0);
    } else {
        let rest = bytes.skip(1);
        lemma_le_value_of_one_more(rest, b);
        assert(all.skip(1) =~= rest.push(b));
        assert(rest.len() == n - 1);
        let p = power::pow(256, (n - 1) as nat);
        assert(power::pow(256, n) == 256 * p) by {
            reveal(power::pow);
        }
        assert(256 * (b * p) == b * (256 * p)) by (nonlinear_arith);
    }
}

} // verus!
