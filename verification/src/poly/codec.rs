//! The byte format of polynomials: the number of values as four big-endian
//! bytes, then the encoded values one after the other.

use super::Polynomial;
use crate::field;
use crate::helpers::{SerdeFormat, SerdePrimeField};
use vstd::arithmetic::div_mod;
use vstd::prelude::*;

verus! {

/// Why a byte string is not an encoded polynomial.
#[derive(Clone, Copy, Debug, PartialEq, Eq, Structural)]
pub enum ReadError {
    /// The bytes end before the last value does.
    UnexpectedEnd,
    /// Some value is not below the modulus.
    InvalidElement,
}

/// The integer that four big-endian bytes stand for.
pub open spec fn be_value(b: Seq<u8>) -> int {
    ((b[0] * 256 + b[1]) * 256 + b[2]) * 256 + b[3]
}

/// The four low bytes of `v`, most significant byte first.
pub open spec fn be_bytes(v: int) -> Seq<u8> {
    seq![
        ((v / 0x100_0000) % 256) as u8,
        ((v / 0x1_0000) % 256) as u8,
        ((v / 0x100) % 256) as u8,
        (v % 256) as u8,
    ]
}

/// The encoding of one element.
pub open spec fn element_bytes<F: SerdePrimeField>(value: int, format: SerdeFormat) -> Seq<u8> {
    match format {
        SerdeFormat::Processed => F::repr_bytes(value),
        _ => F::raw_bytes(value),
    }
}

/// The element that an encoding stands for, if any.
pub open spec fn element_value<F: SerdePrimeField>(
    bytes: Seq<u8>,
    format: SerdeFormat,
) -> Option<int> {
    match format {
        SerdeFormat::Processed => F::repr_value(bytes),
        SerdeFormat::RawBytes => F::raw_value(bytes),
        SerdeFormat::RawBytesUnchecked => Some(F::raw_residue(bytes)),
    }
}

/// The encodings of `values`, one after the other.
pub open spec fn elements_bytes<F: SerdePrimeField>(
    values: Seq<int>,
    format: SerdeFormat,
) -> Seq<u8>
    decreases values.len(),
{
    if values.len() == 0 {
        Seq::empty()
    } else {
        elements_bytes::<F>(values.drop_last(), format) + element_bytes::<F>(
            values.last(),
            format,
        )
    }
}

/// The encoding of a polynomial with the given values. Only the low 32 bits of
/// the number of values are kept.
pub open spec fn poly_bytes<F: SerdePrimeField>(values: Seq<int>, format: SerdeFormat) -> Seq<u8> {
    be_bytes(values.len() as int % 0x1_0000_0000) + elements_bytes::<F>(values, format)
}

/// The bytes of the `k`-th value in an encoded polynomial.
pub open spec fn nth_element<F: SerdePrimeField>(bytes: Seq<u8>, k: int) -> Seq<u8> {
    bytes.subrange(4 + k * F::byte_len(), 4 + (k + 1) * F::byte_len())
}

/// How many whole elements follow the length in `bytes`.
pub open spec fn elements_present<F: SerdePrimeField>(bytes: Seq<u8>) -> int {
    (bytes.len() - 4) / F::byte_len() as int
}

/// Some of the first `n` elements in `bytes` is not a field element.
pub open spec fn has_invalid<F: SerdePrimeField>(
    bytes: Seq<u8>,
    n: int,
    format: SerdeFormat,
) -> bool {
    exists|k: int|
        0 <= k < n && element_value::<F>(#[trigger] nth_element::<F>(bytes, k), format) is None
}

/// What reading a polynomial from the front of `bytes` gives: its values and
/// the number of bytes that it takes up.
///
/// The standard encoding is read value by value, so the first fault decides;
/// the internal encoding is read whole before any value is checked, and is not
/// checked at all in the unchecked format.
pub open spec fn read_poly<F: SerdePrimeField>(bytes: Seq<u8>, format: SerdeFormat) -> Result<
    (Seq<int>, int),
    ReadError,
> {
    let n = be_value(bytes);
    let present = elements_present::<F>(bytes);
    if bytes.len() < 4 {
        Err(ReadError::UnexpectedEnd)
    } else if format == SerdeFormat::Processed && has_invalid::<F>(
        bytes,
        if n < present {
            n
        } else {
            present
        },
        format,
    ) {
        Err(ReadError::InvalidElement)
    } else if present < n {
        Err(ReadError::UnexpectedEnd)
    } else if format == SerdeFormat::RawBytes && has_invalid::<F>(bytes, n, format) {
        Err(ReadError::InvalidElement)
    } else {
        Ok(
            (
                Seq::new(
                    n as nat,
                    |k: int| element_value::<F>(nth_element::<F>(bytes, k), format)->0,
                ),
                4 + n * F::byte_len(),
            ),
        )
    }
}

proof fn lemma_nth_element_fits<F: SerdePrimeField>(bytes: Seq<u8>, k: int)
    requires
        bytes.len() >= 4,
        0 <= k < elements_present::<F>(bytes),
    ensures
        0 <= k * F::byte_len() <= (k + 1) * F::byte_len(),
        (k + 1) * F::byte_len() == k * F::byte_len() + F::byte_len(),
        4 + (k + 1) * F::byte_len() <= bytes.len(),
        nth_element::<F>(bytes, k).len() == F::byte_len(),
{
    F::lemma_byte_len();
    let w = F::byte_len() as int;
    let rest = bytes.len() - 4;
    div_mod::lemma_fundamental_div_mod(rest, w);
    assert(0 <= k * w <= (k + 1) * w && (k + 1) * w == k * w + w && (k + 1) * w <= rest)
        by (nonlinear_arith)
        requires
            0 < w,
            0 <= k < rest / w,
            rest == w * (rest / w) + rest % w,
            0 <= rest % w,
    ;
}

/// The number of bytes that an encoded polynomial takes up, as its first four
/// bytes tell. `None` if there are more than can be counted.
pub fn encoded_len<F: SerdePrimeField>(header: [u8; 4]) -> (r: Option<usize>)
    ensures
        r == (if 4 + be_value(header@) * F::byte_len() <= usize::MAX {
            Some((4 + be_value(header@) * F::byte_len()) as usize)
        } else {
            None
        }),
        r matches Some(len) ==> len == 4 + (header@[0] * 16777216 + header@[1] * 65536 + header@[2]
            * 256 + header@[3]) * F::byte_len(),
        r is None <==> 4 + (header@[0] * 16777216 + header@[1] * 65536 + header@[2] * 256
            + header@[3]) * F::byte_len() > usize::MAX,
{
    let n: u32 = ((header[0] as u32 * 256 + header[1] as u32) * 256 + header[2] as u32) * 256
        + header[3] as u32;
    let w = F::num_bytes();
    match (n as usize).checked_mul(w) {
        Some(body) => body.checked_add(4),
        None => None,
    }
}

impl<F: SerdePrimeField, B> Polynomial<F, B> {
    /// Reads a polynomial from the front of `bytes`, and returns it with the
    /// number of bytes that it takes up.
    pub fn read(bytes: &[u8], format: SerdeFormat) -> (r: Result<(Self, usize), ReadError>)
        ensures
            match (r, read_poly::<F>(bytes@, format)) {
                (Ok((poly, len)), Ok((values, end))) => field::values_of(poly@) == values && len
                    == end,
                (Err(e), Err(f)) => e == f,
                _ => false,
            },
            r matches Ok((poly, len)) ==> {
                &&& bytes@.len() >= 4
                &&& poly@.len() == bytes@[0] * 16777216 + bytes@[1] * 65536 + bytes@[2] * 256
                    + bytes@[3]
                &&& len == 4 + poly@.len() * F::byte_len()
            },
    {
        proof {
            lemma_values_of_read::<F>(bytes@, format);
        }
        if bytes.len() < 4 {
            return Err(ReadError::UnexpectedEnd);
        }
        let n: u32 = ((bytes[0] as u32 * 256 + bytes[1] as u32) * 256 + bytes[2] as u32) * 256
            + bytes[3] as u32;
        let w = F::num_bytes();
        proof {
            F::lemma_byte_len();
        }
        let total = bytes.len();
        let present = (total - 4) / w;
        if format != SerdeFormat::Processed && (present as u64) < n as u64 {
            return Err(ReadError::UnexpectedEnd);
        }
        let mut values: Vec<F> = Vec::new();
        let mut end: usize = 4;
        let mut k: u32 = 0;
        while k < n
            invariant
                k <= n,
                k <= present,
                4 <= total,
                total == bytes@.len(),
                n == be_value(bytes@),
                w == F::byte_len(),
                0 < w,
                present == elements_present::<F>(bytes@),
                format != SerdeFormat::Processed ==> n <= present,
                end == 4 + k * F::byte_len(),
                end <= bytes@.len(),
                values@.len() == k,
                forall|j: int|
                    0 <= j < k ==> element_value::<F>(#[trigger] nth_element::<F>(bytes@, j), format)
                        == Some(values@[j].value()),
            decreases n - k,
        {
            if present <= k as usize {
                assert(!has_invalid::<F>(bytes@, present as int, format));
                return Err(ReadError::UnexpectedEnd);
            }
            proof {
                lemma_nth_element_fits::<F>(bytes@, k as int);
            }
            let element = vstd::slice::slice_subrange(bytes, end, end + w);
            assert(element@ == nth_element::<F>(bytes@, k as int));
            let value = match format {
                SerdeFormat::Processed => F::from_repr(element),
                SerdeFormat::RawBytes => F::from_raw_bytes(element),
                SerdeFormat::RawBytesUnchecked => Some(F::from_raw_bytes_unchecked(element)),
            };
            match value {
                Some(value) => values.push(value),
                None => {
                    return Err(ReadError::InvalidElement);
                },
            }
            end += w;
            k += 1;
        }
        proof {
            assert(field::values_of(values@) =~= Seq::new(
                n as nat,
                |k: int| element_value::<F>(nth_element::<F>(bytes@, k), format)->0,
            ));
        }
        Ok((Polynomial::new(values), end))
    }

    /// Appends the encoding of this polynomial to `writer`.
    pub fn write(&self, writer: &mut Vec<u8>, format: SerdeFormat)
        ensures
            final(writer)@ == old(writer)@ + poly_bytes::<F>(field::values_of(self@), format),
            final(writer)@.len() == old(writer)@.len() + 4 + self@.len() * F::byte_len(),
            ({
                let added = final(writer)@.skip(old(writer)@.len() as int);
                added[0] * 16777216 + added[1] * 65536 + added[2] * 256 + added[3]
                    == self@.len() as int % 4294967296
            }),
    {
        proof {
            assert forall|i: int| 0 <= i < self@.len() implies 0 <= #[trigger] field::values_of(
                self@,
            )[i] < F::modulus() by {
                self@[i].lemma_value();
            }
            lemma_layout_of_write::<F>(field::values_of(self@), format);
        }
        let ghost before = writer@;
        let values = self.values();
        let n: u32 = (values.len() as u64 % 0x1_0000_0000) as u32;
        writer.push((n / 0x100_0000) as u8);
        writer.push((n / 0x1_0000 % 256) as u8);
        writer.push((n / 0x100 % 256) as u8);
        writer.push((n % 256) as u8);
        let ghost header = be_bytes(n as int);
        assert(writer@ =~= before + header);
        let ghost all = field::values_of(self@);
        let mut i: usize = 0;
        while i < values.len()
            invariant
                i <= values@.len(),
                values@ == self@,
                all == field::values_of(self@),
                writer@ == before + header + elements_bytes::<F>(all.take(i as int), format),
            decreases values@.len() - i,
        {
            let bytes = match format {
                SerdeFormat::Processed => values[i].to_repr(),
                _ => values[i].to_raw_bytes(),
            };
            let ghost written = writer@;
            append_bytes(writer, &bytes);
            proof {
                assert(all.take(i + 1).drop_last() =~= all.take(i as int));
                assert(all.take(i + 1).last() == values@[i as int].value());
                assert(writer@ =~= before + header + elements_bytes::<F>(
                    all.take(i + 1),
                    format,
                ));
            }
            i += 1;
        }
        proof {
            assert(all.take(i as int) =~= all);
            assert(writer@ =~= before + poly_bytes::<F>(all, format));
        }
    }
}

/// Appends `bytes` to `writer`.
fn append_bytes(writer: &mut Vec<u8>, bytes: &Vec<u8>)
    ensures
        final(writer)@ == old(writer)@ + bytes@,
{
    let ghost before = writer@;
    let mut i: usize = 0;
    while i < bytes.len()
        invariant
            i <= bytes@.len(),
            writer@ == before + bytes@.take(i as int),
        decreases bytes@.len() - i,
    {
        writer.push(bytes[i]);
        i += 1;
        assert(bytes@.take(i as int) =~= bytes@.take(i - 1).push(bytes@[i - 1]));
        assert(writer@ =~= before + bytes@.take(i as int));
    }
    assert(bytes@.take(i as int) =~= bytes@);
}

proof fn lemma_header(n: int)
    requires
        0 <= n < 0x1_0000_0000,
    ensures
        be_value(be_bytes(n)) == n,
{
}

proof fn lemma_elements_layout<F: SerdePrimeField>(values: Seq<int>, format: SerdeFormat, k: int)
    requires
        forall|i: int| 0 <= i < values.len() ==> 0 <= #[trigger] values[i] < F::modulus(),
        0 <= k < values.len(),
    ensures
        elements_bytes::<F>(values, format).len() == values.len() * F::byte_len(),
        0 <= k * F::byte_len() <= (k + 1) * F::byte_len() <= values.len() * F::byte_len(),
        elements_bytes::<F>(values, format).subrange(
            k * F::byte_len(),
            (k + 1) * F::byte_len(),
        ) == element_bytes::<F>(values[k], format),
    decreases values.len(),
{
    let w = F::byte_len() as int;
    let n = values.len() as int;
    let before = values.drop_last();
    F::lemma_byte_len();
    F::lemma_encoding(values.last());
    assert(forall|i: int| 0 <= i < before.len() ==> before[i] == values[i]);
    lemma_elements_len::<F>(before, format);
    assert(n * w == (n - 1) * w + w) by (nonlinear_arith);
    let all = elements_bytes::<F>(values, format);
    if k == n - 1 {
        assert(0 <= (n - 1) * w) by (nonlinear_arith)
            requires
                1 <= n,
                0 < w,
        ;
        assert(all.subrange((n - 1) * w, n * w) =~= element_bytes::<F>(values.last(), format));
    } else {
        lemma_elements_layout::<F>(before, format, k);
        assert(all.subrange(k * w, (k + 1) * w) =~= elements_bytes::<F>(before, format).subrange(
            k * w,
            (k + 1) * w,
        ));
    }
}

proof fn lemma_elements_len<F: SerdePrimeField>(values: Seq<int>, format: SerdeFormat)
    requires
        forall|i: int| 0 <= i < values.len() ==> 0 <= #[trigger] values[i] < F::modulus(),
    ensures
        elements_bytes::<F>(values, format).len() == values.len() * F::byte_len(),
    decreases values.len(),
{
    if values.len() > 0 {
        let before = values.drop_last();
        F::lemma_encoding(values.last());
        assert(forall|i: int| 0 <= i < before.len() ==> before[i] == values[i]);
        lemma_elements_len::<F>(before, format);
        assert(values.len() * F::byte_len() == (values.len() - 1) * F::byte_len() + F::byte_len())
            by (nonlinear_arith);
    }
}

/// Reading gives back what was written, in every format and whatever follows:
/// the values, and the number of bytes that were written. A length takes four
/// bytes, so this speaks of polynomials of fewer than `2^32` values.
pub proof fn lemma_read_of_write<F: SerdePrimeField>(
    values: Seq<int>,
    format: SerdeFormat,
    rest: Seq<u8>,
)
    requires
        values.len() < 0x1_0000_0000,
        forall|i: int| 0 <= i < values.len() ==> 0 <= #[trigger] values[i] < F::modulus(),
    ensures
        read_poly::<F>(poly_bytes::<F>(values, format) + rest, format) == Ok::<_, ReadError>(
            (values, poly_bytes::<F>(values, format).len() as int),
        ),
{
    let w = F::byte_len() as int;
    let n = values.len() as int;
    let written = poly_bytes::<F>(values, format);
    let bytes = written + rest;
    F::lemma_byte_len();
    div_mod::lemma_small_mod(values.len(), 0x1_0000_0000);
    lemma_header(n);
    lemma_elements_len::<F>(values, format);
    assert(be_value(bytes) == n) by {
        assert(forall|i: int| 0 <= i < 4 ==> bytes[i] == be_bytes(n)[i]);
    }
    assert(elements_present::<F>(bytes) >= n) by {
        let len = bytes.len() - 4;
        div_mod::lemma_fundamental_div_mod(len, w);
        assert(len / w >= n) by (nonlinear_arith)
            requires
                len >= n * w,
                0 < w,
                len == w * (len / w) + len % w,
                len % w < w,
        ;
    }
    assert forall|k: int| 0 <= k < n implies element_value::<F>(
        #[trigger] nth_element::<F>(bytes, k),
        format,
    ) == Some(values[k]) by {
        lemma_elements_layout::<F>(values, format, k);
        F::lemma_encoding(values[k]);
        F::lemma_raw_residue(F::raw_bytes(values[k]));
        let elements = elements_bytes::<F>(values, format);
        assert(nth_element::<F>(bytes, k) =~= elements.subrange(k * w, (k + 1) * w));
    }
    assert(Seq::new(
        n as nat,
        |k: int| element_value::<F>(nth_element::<F>(bytes, k), format)->0,
    ) =~= values);
}

/// The internal encoding is read without a check as it is read with one, where
/// the check does not fail. It fails exactly if all bytes are there and some
/// value is not below the modulus; without the check such bytes are read too.
pub proof fn lemma_read_unchecked<F: SerdePrimeField>(bytes: Seq<u8>)
    ensures
        read_poly::<F>(bytes, SerdeFormat::RawBytes) is Ok ==> read_poly::<F>(
            bytes,
            SerdeFormat::RawBytesUnchecked,
        ) == read_poly::<F>(bytes, SerdeFormat::RawBytes),
        read_poly::<F>(bytes, SerdeFormat::RawBytesUnchecked) is Ok <==> bytes.len() >= 4
            && be_value(bytes) <= elements_present::<F>(bytes),
        read_poly::<F>(bytes, SerdeFormat::RawBytes) == Err::<(Seq<int>, int), ReadError>(
            ReadError::InvalidElement,
        ) <==> read_poly::<F>(bytes, SerdeFormat::RawBytesUnchecked) is Ok && has_invalid::<F>(
            bytes,
            be_value(bytes),
            SerdeFormat::RawBytes,
        ),
{
    let checked = SerdeFormat::RawBytes;
    let unchecked = SerdeFormat::RawBytesUnchecked;
    let n = be_value(bytes);
    if read_poly::<F>(bytes, checked) is Ok {
        assert forall|k: int| 0 <= k < n implies element_value::<F>(
            #[trigger] nth_element::<F>(bytes, k),
            checked,
        ) == element_value::<F>(nth_element::<F>(bytes, k), unchecked) by {
            F::lemma_raw_residue(nth_element::<F>(bytes, k));
        }
        assert(Seq::new(
            n as nat,
            |k: int| element_value::<F>(nth_element::<F>(bytes, k), checked)->0,
        ) =~= Seq::new(
            n as nat,
            |k: int| element_value::<F>(nth_element::<F>(bytes, k), unchecked)->0,
        ));
    }
}

/// The `k`-th of the pieces of `w` bytes that follow the first four bytes.
pub open spec fn chunk(bytes: Seq<u8>, k: int, w: int) -> Seq<u8> {
    bytes.subrange(4 + k * w, 4 + k * w + w)
}

/// The first four bytes of an encoded polynomial tell the number of its values:
/// the first byte counts `2^24`, the second `2^16`, the third `2^8` and the fourth
/// one. The values follow, each in as many bytes as every other, and in their
/// order: in the standard encoding if that is asked for, else in the internal one.
/// Nothing comes after them.
pub proof fn lemma_layout_of_write<F: SerdePrimeField>(values: Seq<int>, format: SerdeFormat)
    requires
        forall|i: int| 0 <= i < values.len() ==> 0 <= #[trigger] values[i] < F::modulus(),
    ensures
        poly_bytes::<F>(values, format).len() == 4 + values.len() * F::byte_len(),
        poly_bytes::<F>(values, format)[0] * 16777216 + poly_bytes::<F>(values, format)[1] * 65536
            + poly_bytes::<F>(values, format)[2] * 256 + poly_bytes::<F>(values, format)[3]
            == values.len() as int % 4294967296,
        forall|k: int|
            0 <= k < values.len() ==> #[trigger] chunk(
                poly_bytes::<F>(values, format),
                k,
                F::byte_len() as int,
            ) == (if format == SerdeFormat::Processed {
                F::repr_bytes(values[k])
            } else {
                F::raw_bytes(values[k])
            }),
{
    let n = values.len() as int % 0x1_0000_0000;
    let w = F::byte_len() as int;
    let all = poly_bytes::<F>(values, format);
    let elements = elements_bytes::<F>(values, format);
    lemma_header(n);
    lemma_elements_len::<F>(values, format);
    assert(forall|i: int| 0 <= i < 4 ==> all[i] == be_bytes(n)[i]);
    assert forall|k: int| 0 <= k < values.len() implies #[trigger] chunk(all, k, w) == (if format
        == SerdeFormat::Processed {
        F::repr_bytes(values[k])
    } else {
        F::raw_bytes(values[k])
    }) by {
        lemma_elements_layout::<F>(values, format, k);
        assert((k + 1) * w == k * w + w) by (nonlinear_arith);
        assert(chunk(all, k, w) =~= elements.subrange(k * w, (k + 1) * w));
    }
}

/// Reading succeeds only if the first four bytes, the first of which counts `2^24`,
/// the second `2^16`, the third `2^8` and the fourth one, tell a number of values
/// that are all there. It gives exactly that many values, each of which is what
/// its bytes stand for, and takes up the bytes of these and no others.
pub proof fn lemma_values_of_read<F: SerdePrimeField>(bytes: Seq<u8>, format: SerdeFormat)
    ensures
        read_poly::<F>(bytes, format) matches Ok((values, end)) ==> {
            &&& bytes.len() >= 4
            &&& values.len() == bytes[0] * 16777216 + bytes[1] * 65536 + bytes[2] * 256 + bytes[3]
            &&& end == 4 + values.len() * F::byte_len()
            &&& end <= bytes.len()
            &&& forall|k: int|
                0 <= k < values.len() ==> (#[trigger] values[k]) == (match format {
                    SerdeFormat::Processed => F::repr_value(
                        chunk(bytes, k, F::byte_len() as int),
                    )->0,
                    SerdeFormat::RawBytes => F::raw_value(
                        chunk(bytes, k, F::byte_len() as int),
                    )->0,
                    SerdeFormat::RawBytesUnchecked => F::raw_residue(
                        chunk(bytes, k, F::byte_len() as int),
                    ),
                })
        },
{
    if read_poly::<F>(bytes, format) is Ok {
        F::lemma_byte_len();
        let n = be_value(bytes);
        let w = F::byte_len() as int;
        let rest = bytes.len() - 4;
        div_mod::lemma_fundamental_div_mod(rest, w);
        assert(n * w <= rest) by (nonlinear_arith)
            requires
                0 < w,
                n <= rest / w,
                rest == w * (rest / w) + rest % w,
                0 <= rest % w,
        ;
        assert forall|k: int| #[trigger] nth_element::<F>(bytes, k) == chunk(bytes, k, w) by {
            assert((k + 1) * w == k * w + w) by (nonlinear_arith);
        }
        assert(n == bytes[0] * 16777216 + bytes[1] * 65536 + bytes[2] * 256 + bytes[3]);
        let values = read_poly::<F>(bytes, format)->Ok_0.0;
        assert forall|k: int| 0 <= k < values.len() implies #[trigger] values[k]
            == element_value::<F>(chunk(bytes, k, w), format)->0 by {
            assert(nth_element::<F>(bytes, k) == chunk(bytes, k, w));
        }
    }
}

/// When reading fails, and why. `n` is the number of values that the first four
/// bytes tell, `w` is the width of a value.
///
/// The bytes can end too early: there are fewer than four of them, or fewer than
/// `n * w` after these. A value that is there can be none of the field; this goes
/// unnoticed in the unchecked format. If both are the case, the values that are
/// there decide in the standard encoding, and the end of the bytes in the internal
/// one.
pub proof fn lemma_failures_of_read<F: SerdePrimeField>(bytes: Seq<u8>, format: SerdeFormat)
    ensures
        ({
            let n = bytes[0] * 16777216 + bytes[1] * 65536 + bytes[2] * 256 + bytes[3];
            let w = F::byte_len() as int;
            let is_short = bytes.len() < 4 || bytes.len() < 4 + n * w;
            let is_invalid = bytes.len() >= 4 && exists|k: int|
                {
                    &&& 0 <= k < n
                    &&& 4 + (k + 1) * w <= bytes.len()
                    &&& match format {
                        SerdeFormat::Processed => F::repr_value(
                            #[trigger] chunk(bytes, k, w),
                        ) is None,
                        SerdeFormat::RawBytes => F::raw_value(
                            chunk(bytes, k, w),
                        ) is None,
                        SerdeFormat::RawBytesUnchecked => false,
                    }
                };
            &&& read_poly::<F>(bytes, format) is Err <==> is_short || is_invalid
            &&& read_poly::<F>(bytes, format) matches Err(e) ==> (e == ReadError::InvalidElement
                <==> is_invalid && (format == SerdeFormat::Processed || !is_short))
        }),
{
    F::lemma_byte_len();
    let n = bytes[0] * 16777216 + bytes[1] * 65536 + bytes[2] * 256 + bytes[3];
    let w = F::byte_len() as int;
    if bytes.len() >= 4 {
        let rest = bytes.len() - 4;
        let present = elements_present::<F>(bytes);
        div_mod::lemma_fundamental_div_mod(rest, w);
        assert(present < n <==> rest < n * w) by (nonlinear_arith)
            requires
                0 < w,
                present == rest / w,
                rest == w * (rest / w) + rest % w,
                0 <= rest % w < w,
        ;
        assert forall|k: int| 0 <= k implies #[trigger] chunk(bytes, k, w) == nth_element::<F>(
            bytes,
            k,
        ) && (k < present <==> 4 + (k + 1) * w <= bytes.len()) by {
            assert((k + 1) * w == k * w + w) by (nonlinear_arith);
            assert(k < present <==> (k + 1) * w <= rest) by (nonlinear_arith)
                requires
                    0 < w,
                    present == rest / w,
                    rest == w * (rest / w) + rest % w,
                    0 <= rest % w < w,
            ;
        }
        let bound = if n < present {
            n
        } else {
            present
        };
        if has_invalid::<F>(bytes, bound, format) {
            let k = choose|k: int|
                0 <= k < bound && element_value::<F>(
                    #[trigger] nth_element::<F>(bytes, k),
                    format,
                ) is None;
            assert(chunk(bytes, k, w) == nth_element::<F>(bytes, k));
        }
    }
}

} // verus!
