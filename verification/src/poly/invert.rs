//! Turning fractions into field elements, with all denominators inverted at
//! once.

use super::{LagrangeCoeff, Polynomial};
use crate::field;
use crate::field::Field;
use crate::plonk::Assigned;
use vstd::arithmetic::div_mod;
use vstd::prelude::*;

verus! {

/// The denominators of the fractions in a column, in order.
spec fn denominators_of<F>(column: Seq<Assigned<F>>) -> Seq<F>
    decreases column.len(),
{
    if column.len() == 0 {
        Seq::empty()
    } else {
        let before = denominators_of(column.drop_last());
        match column.last() {
            Assigned::Rational(_, denominator) => before.push(denominator),
            _ => before,
        }
    }
}

/// The denominators of the fractions in all columns, in order.
spec fn all_denominators<F>(columns: Seq<Seq<Assigned<F>>>) -> Seq<F>
    decreases columns.len(),
{
    if columns.len() == 0 {
        Seq::empty()
    } else {
        all_denominators(columns.drop_last()) + denominators_of(columns.last())
    }
}

proof fn lemma_denominators_prefix<F>(column: Seq<Assigned<F>>, j: int)
    requires
        0 <= j <= column.len(),
    ensures
        denominators_of(column.take(j)).is_prefix_of(denominators_of(column)),
    decreases column.len(),
{
    if j == column.len() {
        assert(column.take(j) =~= column);
    } else {
        lemma_denominators_prefix(column.drop_last(), j);
        assert(column.drop_last().take(j) =~= column.take(j));
    }
}

proof fn lemma_all_denominators_prefix<F>(columns: Seq<Seq<Assigned<F>>>, i: int, j: int)
    requires
        0 <= i < columns.len(),
        0 <= j <= columns[i].len(),
    ensures
        (all_denominators(columns.take(i)) + denominators_of(columns[i].take(j))).is_prefix_of(
            all_denominators(columns),
        ),
    decreases columns.len(),
{
    let before = columns.drop_last();
    if i == columns.len() - 1 {
        assert(columns.take(i) =~= before);
        lemma_denominators_prefix(columns[i], j);
    } else {
        lemma_all_denominators_prefix(before, i, j);
        assert(before.take(i) =~= columns.take(i));
    }
}

/// The columns as sequences.
pub open spec fn columns_of<F>(assigned: Seq<&[Assigned<F>]>) -> Seq<Seq<Assigned<F>>> {
    assigned.map_values(|column: &[Assigned<F>]| column@)
}

/// `r` holds the field elements that the fractions in `columns` stand for.
pub open spec fn all_evaluated<F: Field>(
    columns: Seq<Seq<Assigned<F>>>,
    r: Seq<Polynomial<F, LagrangeCoeff>>,
) -> bool {
    &&& r.len() == columns.len()
    &&& forall|i: int| 0 <= i < r.len() ==> column_evaluated(columns[i], (#[trigger] r[i])@)
}

/// `r` holds the field elements that the fractions in `column` stand for.
pub open spec fn column_evaluated<F: Field>(column: Seq<Assigned<F>>, r: Seq<F>) -> bool {
    &&& r.len() == column.len()
    &&& forall|j: int|
        0 <= j < r.len() ==> column[j].evaluates_to((#[trigger] r[j]).value())
}

/// Inverts all denominators of `assigned` in one batch and returns the field
/// elements that its fractions stand for, column by column.
pub fn batch_invert_assigned<F: Field>(assigned: Vec<&[Assigned<F>]>) -> (r: Vec<
    Polynomial<F, LagrangeCoeff>,
>)
    requires
        forall|i: int|
            0 <= i < assigned@.len() ==> 0 < assigned@[0]@.len() == (#[trigger] assigned@[i])@.len(),
    ensures
        all_evaluated(columns_of(assigned@), r@),
{
    let ghost columns = columns_of(assigned@);
    let mut denominators: Vec<F> = Vec::new();
    let mut i: usize = 0;
    while i < assigned.len()
        invariant
            i <= assigned@.len(),
            columns == columns_of(assigned@),
            denominators@ == all_denominators(columns.take(i as int)),
        decreases assigned@.len() - i,
    {
        let column = assigned[i];
        let mut j: usize = 0;
        while j < column.len()
            invariant
                i < assigned@.len(),
                j <= column@.len(),
                columns == columns_of(assigned@),
                column@ == columns[i as int],
                denominators@ == all_denominators(columns.take(i as int)) + denominators_of(
                    column@.take(j as int),
                ),
            decreases column@.len() - j,
        {
            let denominator = column[j].denominator();
            assert(column@.take(j + 1).drop_last() =~= column@.take(j as int));
            if let Some(d) = denominator {
                denominators.push(d);
            }
            j += 1;
        }
        assert(column@.take(j as int) =~= column@);
        assert(columns.take(i + 1).drop_last() =~= columns.take(i as int));
        i += 1;
    }
    assert(columns.take(i as int) =~= columns);
    let inverses = F::batch_invert(denominators);
    let mut r: Vec<Polynomial<F, LagrangeCoeff>> = Vec::new();
    let mut next: usize = 0;
    let mut i: usize = 0;
    while i < assigned.len()
        invariant
            i <= assigned@.len(),
            columns == columns_of(assigned@),
            denominators@ == all_denominators(columns),
            inverses@.len() == denominators@.len(),
            forall|k: int|
                0 <= k < inverses@.len() ==> field::is_inverse_or_zero(
                    denominators@[k].value(),
                    (#[trigger] inverses@[k]).value(),
                    F::modulus(),
                ),
            next == all_denominators(columns.take(i as int)).len(),
            r@.len() == i,
            forall|k: int| 0 <= k < i ==> column_evaluated(columns[k], (#[trigger] r@[k])@),
        decreases assigned@.len() - i,
    {
        let column = assigned[i];
        let mut values: Vec<F> = Vec::new();
        let mut j: usize = 0;
        while j < column.len()
            invariant
                i < assigned@.len(),
                j <= column@.len(),
                columns == columns_of(assigned@),
                column@ == columns[i as int],
                denominators@ == all_denominators(columns),
                inverses@.len() == denominators@.len(),
                forall|k: int|
                    0 <= k < inverses@.len() ==> field::is_inverse_or_zero(
                        denominators@[k].value(),
                        (#[trigger] inverses@[k]).value(),
                        F::modulus(),
                    ),
                next == all_denominators(columns.take(i as int)).len() + denominators_of(
                    column@.take(j as int),
                ).len(),
                values@.len() == j,
                forall|k: int|
                    0 <= k < j ==> column@[k].evaluates_to((#[trigger] values@[k]).value()),
            decreases column@.len() - j,
        {
            let a = column[j];
            assert(column@.take(j + 1).drop_last() =~= column@.take(j as int));
            let value = match a.denominator() {
                Some(_) => {
                    proof {
                        lemma_all_denominators_prefix(columns, i as int, j + 1);
                        let before = all_denominators(columns.take(i as int)) + denominators_of(
                            column@.take(j + 1),
                        );
                        assert(before[next as int] == denominators@[next as int]);
                        inverses@[next as int].lemma_value();
                    }
                    let value = a.numerator().mul(&inverses[next]);
                    assert(next < inverses.len());
                    next += 1;
                    value
                },
                None => {
                    let value = a.numerator().mul(&F::one());
                    proof {
                        F::lemma_modulus();
                        if let Assigned::Trivial(x) = a {
                            x.lemma_value();
                        }
                        div_mod::lemma_small_mod(a.numerator_value() as nat, F::modulus() as nat);
                    }
                    value
                },
            };
            values.push(value);
            j += 1;
        }
        assert(column@.take(j as int) =~= column@);
        assert(columns.take(i + 1).drop_last() =~= columns.take(i as int));
        r.push(Polynomial::new(values));
        i += 1;
    }
    r
}

impl<F: Field> Polynomial<Assigned<F>, LagrangeCoeff> {
    /// Multiplies every numerator by the inverse of its denominator, which the
    /// caller supplies.
    pub fn invert(&self, inv_denoms: Vec<F>) -> (r: Polynomial<F, LagrangeCoeff>)
        requires
            inv_denoms@.len() == self@.len(),
        ensures
            r@.len() == self@.len(),
            forall|i: int|
                0 <= i < self@.len() ==> (#[trigger] r@[i]).value() == (
                self@[i].numerator_value() * inv_denoms@[i].value()) % F::modulus(),
    {
        let src = self.values();
        let mut values: Vec<F> = Vec::new();
        let mut i: usize = 0;
        while i < src.len()
            invariant
                i <= src@.len(),
                src@ == self@,
                inv_denoms@.len() == self@.len(),
                values@.len() == i,
                forall|j: int|
                    0 <= j < i ==> (#[trigger] values@[j]).value() == (self@[j].numerator_value()
                        * inv_denoms@[j].value()) % F::modulus(),
            decreases src@.len() - i,
        {
            values.push(src[i].numerator().mul(&inv_denoms[i]));
            i += 1;
        }
        Polynomial::new(values)
    }
}

} // verus!
