//! Circuits, the columns that they are laid out on, and how their cells are
//! assigned.

use super::history;
use super::history::Action;
use super::{Assigned, Error};
use crate::field::Field;
use crate::poly::Rotation;
use vstd::prelude::*;

verus! {

/// A phase of witness generation. Challenges are squeezed between phases.
#[derive(Clone, Copy, Debug, PartialEq, Eq, Structural)]
pub struct Phase(pub u8);

impl Phase {
    /// The phase after this one.
    pub fn next(self) -> (r: Phase)
        requires
            self.0 < u8::MAX,
        ensures
            r.0 == self.0 + 1,
    {
        Phase(self.0 + 1)
    }

    /// The number of phases before this one.
    pub fn to_u8(self) -> (r: u8)
        ensures
            r == self.0,
    {
        self.0
    }
}

/// An advice column.
#[derive(Clone, Copy, Debug, PartialEq, Eq, Structural)]
pub struct Advice;

/// A fixed column.
#[derive(Clone, Copy, Debug, PartialEq, Eq, Structural)]
pub struct Fixed;

/// An instance column.
#[derive(Clone, Copy, Debug, PartialEq, Eq, Structural)]
pub struct Instance;

/// A column of any type.
#[derive(Clone, Copy, Debug, PartialEq, Eq, Structural)]
pub enum Any {
    /// An advice column.
    Advice,
    /// A fixed column.
    Fixed,
    /// An instance column.
    Instance,
}

/// A column with an index and type.
#[derive(Debug)]
pub struct Column<C> {
    /// The index of the column among those of its type.
    pub index: usize,
    /// The type of the column.
    pub column_type: C,
}

impl<C: Copy> Clone for Column<C> {
    fn clone(&self) -> (r: Self)
        ensures
            r == *self,
    {
        *self
    }
}

impl<C: Copy> Copy for Column<C> {

}

impl<C> Column<C> {
    /// Index of this column.
    pub fn index(&self) -> (r: usize)
        ensures
            r == self.index,
    {
        self.index
    }
}

/// A selector, representing a fixed boolean value per row of the circuit.
#[derive(Clone, Copy, Debug, PartialEq, Eq, Structural)]
pub struct Selector(pub usize);

/// A challenge squeezed from transcript after advice columns at the phase have
/// been committed.
#[derive(Clone, Copy, Debug, PartialEq, Eq, Structural)]
pub struct Challenge {
    /// The index of the challenge.
    pub index: usize,
    /// The phase after which it is squeezed.
    pub phase: Phase,
}

impl Challenge {
    /// Index of this challenge.
    pub fn index(&self) -> (r: usize)
        ensures
            r == self.index,
    {
        self.index
    }
}

/// A value that might exist within a circuit.
#[derive(Debug)]
pub struct Value<V> {
    /// The value, where it is known.
    pub inner: Option<V>,
}

impl<V: Copy> Clone for Value<V> {
    fn clone(&self) -> (r: Self)
        ensures
            r == *self,
    {
        *self
    }
}

impl<V: Copy> Copy for Value<V> {

}

impl<V> Value<V> {
    /// Constructs an unwitnessed value.
    pub fn unknown() -> (r: Self)
        ensures
            r.inner is None,
    {
        Value { inner: None }
    }

    /// Constructs a known value.
    pub fn known(value: V) -> (r: Self)
        ensures
            r.inner == Some(value),
    {
        Value { inner: Some(value) }
    }

    /// Obtains the inner value for assigning into the circuit. An unwitnessed
    /// value is a synthesis error.
    pub fn assign(self) -> (r: Result<V, Error>)
        ensures
            r == (match self.inner {
                Some(value) => Ok::<V, Error>(value),
                None => Err::<V, Error>(Error::Synthesis),
            }),
    {
        match self.inner {
            Some(value) => Ok(value),
            None => Err(Error::Synthesis),
        }
    }
}

/// The number of phases that a list of phases spans: one more than the last of
/// them, and at least one.
pub open spec fn phases_spanned(phases: Seq<Phase>) -> int
    decreases phases.len(),
{
    if phases.len() == 0 {
        1
    } else {
        let before = phases_spanned(phases.drop_last());
        if phases.last().0 + 1 > before {
            phases.last().0 + 1
        } else {
            before
        }
    }
}

/// Phases below a bound span no more phases than the bound.
pub proof fn lemma_phases_spanned(phases: Seq<Phase>, bound: int)
    requires
        1 <= bound,
        forall|i: int| 0 <= i < phases.len() ==> (#[trigger] phases[i]).0 < bound,
    ensures
        1 <= phases_spanned(phases) <= bound,
        forall|i: int| 0 <= i < phases.len() ==> (#[trigger] phases[i]).0 < phases_spanned(phases),
    decreases phases.len(),
{
    if phases.len() > 0 {
        let init = phases.drop_last();
        assert forall|i: int| 0 <= i < init.len() implies (#[trigger] init[i]).0 < bound by {
            assert(init[i] == phases[i]);
        }
        lemma_phases_spanned(init, bound);
        assert forall|i: int| 0 <= i < phases.len() implies (#[trigger] phases[i]).0
            < phases_spanned(phases) by {
            if i < init.len() {
                assert(init[i] == phases[i]);
            }
        }
    }
}

/// No fewer phases are spanned than it takes to reach the last of them.
pub proof fn lemma_phases_reached(phases: Seq<Phase>)
    ensures
        phases_spanned(phases) == 1 || exists|i: int|
            0 <= i < phases.len() && (#[trigger] phases[i]).0 + 1 == phases_spanned(phases),
        phases_spanned(phases) >= 1,
        forall|i: int| 0 <= i < phases.len() ==> (#[trigger] phases[i]).0 < phases_spanned(phases),
    decreases phases.len(),
{
    lemma_phases_spanned(phases, 256);
    if phases.len() > 0 {
        let init = phases.drop_last();
        let last = phases.len() - 1;
        lemma_phases_reached(init);
        assert(phases.last() == phases[last]);
        if phases_spanned(phases) == phases_spanned(init) && phases_spanned(init) > 1 {
            let i = choose|i: int|
                0 <= i < init.len() && (#[trigger] init[i]).0 + 1 == phases_spanned(init);
            assert(phases[i] == init[i]);
        }
    }
}

/// The columns, queries and challenges of a circuit.
#[derive(Debug)]
pub struct ConstraintSystem {
    /// The number of fixed columns.
    pub num_fixed_columns: usize,
    /// The number of advice columns.
    pub num_advice_columns: usize,
    /// The number of instance columns.
    pub num_instance_columns: usize,
    /// The number of challenges.
    pub num_challenges: usize,
    /// The number of lookup arguments.
    pub num_lookups: usize,
    /// The number of rows that are needed to blind every column.
    pub blinding_factors: usize,
    /// The phase of each advice column.
    pub advice_column_phase: Vec<Phase>,
    /// The phase after which each challenge is squeezed.
    pub challenge_phase: Vec<Phase>,
    /// The cells of advice columns that gates refer to, relative to a row.
    pub advice_queries: Vec<(Column<Advice>, Rotation)>,
    /// The cells of instance columns that gates refer to, relative to a row.
    pub instance_queries: Vec<(Column<Instance>, Rotation)>,
    /// The cells of fixed columns that gates refer to, relative to a row.
    pub fixed_queries: Vec<(Column<Fixed>, Rotation)>,
    /// The fixed columns that hold constants.
    pub constants: Vec<Column<Fixed>>,
}

/// Each query is to one of `columns` columns.
pub open spec fn queries_in_range<C>(queries: Seq<(Column<C>, Rotation)>, columns: int) -> bool {
    forall|i: int| 0 <= i < queries.len() ==> (#[trigger] queries[i]).0.index < columns
}

/// The number of phases that witnesses are generated in at most.
pub const MAX_PHASES: u8 = 3;

impl ConstraintSystem {
    /// Every column has one of the three phases, every challenge is squeezed
    /// in a phase that some column spans, and queries refer to columns that
    /// are there.
    pub open spec fn wf(&self) -> bool {
        &&& self.advice_column_phase@.len() == self.num_advice_columns
        &&& self.challenge_phase@.len() == self.num_challenges
        &&& forall|i: int|
            0 <= i < self.num_advice_columns ==> (#[trigger] self.advice_column_phase@[i]).0
                < MAX_PHASES
        &&& forall|i: int|
            0 <= i < self.num_challenges ==> (#[trigger] self.challenge_phase@[i]).0
                < self.spec_num_phases()
        &&& queries_in_range(self.advice_queries@, self.num_advice_columns as int)
        &&& queries_in_range(self.instance_queries@, self.num_instance_columns as int)
        &&& queries_in_range(self.fixed_queries@, self.num_fixed_columns as int)
    }

    /// The number of phases that witnesses are generated in.
    pub open spec fn spec_num_phases(&self) -> int {
        phases_spanned(self.advice_column_phase@)
    }

    /// The constraint system of a circuit without columns.
    pub fn empty() -> (r: Self)
        ensures
            r.wf(),
            r.num_fixed_columns == 0,
            r.num_advice_columns == 0,
            r.num_instance_columns == 0,
            r.num_challenges == 0,
            r.num_lookups == 0,
            r.blinding_factors == 0,
            r.constants@.len() == 0,
            r.advice_queries@.len() == 0,
            r.instance_queries@.len() == 0,
            r.fixed_queries@.len() == 0,
    {
        ConstraintSystem {
            num_fixed_columns: 0,
            num_advice_columns: 0,
            num_instance_columns: 0,
            num_challenges: 0,
            num_lookups: 0,
            blinding_factors: 0,
            advice_column_phase: Vec::new(),
            challenge_phase: Vec::new(),
            advice_queries: Vec::new(),
            instance_queries: Vec::new(),
            fixed_queries: Vec::new(),
            constants: Vec::new(),
        }
    }

    /// The phases that witnesses are generated in, in order.
    pub fn phases(&self) -> (r: Vec<Phase>)
        requires
            self.wf(),
        ensures
            r@.len() == self.spec_num_phases(),
            1 <= r@.len() <= MAX_PHASES,
            forall|i: int| 0 <= i < r@.len() ==> (#[trigger] r@[i]).0 == i,
    {
        let ghost phases = self.advice_column_phase@;
        let mut count: u8 = 1;
        let mut i: usize = 0;
        while i < self.advice_column_phase.len()
            invariant
                self.wf(),
                phases == self.advice_column_phase@,
                i <= phases.len(),
                1 <= count <= MAX_PHASES,
                count == phases_spanned(phases.take(i as int)),
            decreases phases.len() - i,
        {
            assert(phases.take(i + 1).drop_last() =~= phases.take(i as int));
            let phase = self.advice_column_phase[i];
            if phase.0 + 1 > count {
                count = phase.0 + 1;
            }
            i += 1;
        }
        assert(phases.take(i as int) =~= phases);
        let mut r: Vec<Phase> = Vec::new();
        let mut p: u8 = 0;
        while p < count
            invariant
                p <= count,
                r@.len() == p,
                forall|k: int| 0 <= k < p ==> (#[trigger] r@[k]).0 == k,
            decreases count - p,
        {
            r.push(Phase(p));
            p += 1;
        }
        r
    }
}

/// This trait allows a circuit to direct some backend to assign a witness for
/// a constraint system.
pub trait Assignment<F: Field>: Sized {
    /// The invariant of the backend.
    spec fn wf(&self) -> bool;

    /// `later` is a state that the backend can get to from this one.
    spec fn evolves(&self, later: &Self) -> bool;

    /// The number of advice columns.
    spec fn spec_num_columns(&self) -> nat;

    /// The number of rows of each advice column.
    spec fn spec_num_rows(&self) -> nat;

    /// The instance columns.
    spec fn spec_instances(&self) -> Seq<Seq<F>>;

    /// The number of rows that a circuit may use.
    spec fn spec_usable_rows(&self) -> nat;

    /// The binary logarithm of the number of rows.
    spec fn spec_k(&self) -> u32;

    /// What has been done to the backend.
    spec fn history(&self) -> Seq<Action<F>>;

    /// The backend could not take a step.
    spec fn has_failed(&self) -> bool;

    /// A backend stays where it is or moves on, and changes neither its shape nor
    /// its instances.
    proof fn lemma_evolves(&self, later: &Self, latest: &Self)
        ensures
            self.wf() ==> self.evolves(self),
            self.evolves(later) && later.evolves(latest) ==> self.evolves(latest),
            self.evolves(later) ==> {
                &&& later.spec_num_columns() == self.spec_num_columns()
                &&& later.spec_num_rows() == self.spec_num_rows()
                &&& later.spec_instances() == self.spec_instances()
                &&& later.spec_usable_rows() == self.spec_usable_rows()
                &&& later.spec_k() == self.spec_k()
                &&& self.history().is_prefix_of(later.history())
            },
    ;

    /// Creates a new region and enters into it.
    fn enter_region(&mut self, name: &str)
        requires
            old(self).wf(),
        ensures
            final(self).wf(),
            old(self).evolves(final(self)),
            final(self).history() == old(self).history(),
    ;

    /// Exits the current region.
    fn exit_region(&mut self)
        requires
            old(self).wf(),
        ensures
            final(self).wf(),
            old(self).evolves(final(self)),
            final(self).history() == old(self).history(),
    ;

    /// Enables a selector at the given row.
    fn enable_selector(&mut self, annotation: &str, selector: &Selector, row: usize) -> (r: Result<
        (),
        Error,
    >)
        requires
            old(self).wf(),
        ensures
            final(self).wf(),
            old(self).evolves(final(self)),
            final(self).history() == old(self).history(),
    ;

    /// Allows the developer to include an annotation for a specific column
    /// within a region.
    fn annotate_column(&mut self, annotation: &str, column: Column<Any>)
        requires
            old(self).wf(),
        ensures
            final(self).wf(),
            old(self).evolves(final(self)),
            final(self).history() == old(self).history(),
    ;

    /// Queries the cell of an instance column at a particular absolute row.
    fn query_instance(&self, column: Column<Instance>, row: usize) -> (r: Result<Value<F>, Error>)
        requires
            self.wf(),
        ensures
            r == (if row >= self.spec_usable_rows() {
                Err(Error::NotEnoughRowsAvailable { current_k: self.spec_k() })
            } else if column.index < self.spec_instances().len() && row
                < self.spec_instances()[column.index as int].len() {
                Ok(Value { inner: Some(self.spec_instances()[column.index as int][row as int]) })
            } else {
                Err(Error::BoundsFailure)
            }),
    ;

    /// Assigns an advice column value, which must be known, and returns what
    /// the cell holds.
    fn assign_advice(&mut self, column: Column<Advice>, row: usize, to: Value<Assigned<F>>) -> (r:
        Value<Assigned<F>>)
        requires
            old(self).wf(),
            column.index < old(self).spec_num_columns(),
            row < old(self).spec_num_rows(),
            to.inner is Some,
        ensures
            r == to,
            final(self).wf(),
            old(self).evolves(final(self)),
            final(self).history() == old(self).history().push(
                Action::Assign { column: column.index, row, value: to.inner->0 },
            ),
    ;

    /// Assigns a fixed value.
    fn assign_fixed(&mut self, column: Column<Fixed>, row: usize, to: Assigned<F>)
        requires
            old(self).wf(),
        ensures
            final(self).wf(),
            old(self).evolves(final(self)),
            final(self).history() == old(self).history(),
    ;

    /// Assigns two cells to have the same value.
    fn copy(
        &mut self,
        left_column: Column<Any>,
        left_row: usize,
        right_column: Column<Any>,
        right_row: usize,
    )
        requires
            old(self).wf(),
        ensures
            final(self).wf(),
            old(self).evolves(final(self)),
            final(self).history() == old(self).history(),
    ;

    /// Fills a fixed column starting from the given row with a value.
    fn fill_from_row(
        &mut self,
        column: Column<Fixed>,
        row: usize,
        to: Value<Assigned<F>>,
    ) -> (r: Result<(), Error>)
        requires
            old(self).wf(),
        ensures
            final(self).wf(),
            old(self).evolves(final(self)),
            final(self).history() == old(self).history(),
    ;

    /// Queries the value of the given challenge. It is unknown if the current
    /// phase is not after the phase of the challenge.
    fn get_challenge(&self, challenge: Challenge) -> (r: Value<F>)
        requires
            self.wf(),
        ensures
            r == (if history::known(self.history()).contains_key(challenge.index) {
                Value { inner: Some(history::known(self.history())[challenge.index]) }
            } else {
                Value { inner: None }
            }),
    ;

    /// Creates a new (sub)namespace and enters into it.
    fn push_namespace(&mut self, name: &str)
        requires
            old(self).wf(),
        ensures
            final(self).wf(),
            old(self).evolves(final(self)),
            final(self).history() == old(self).history(),
    ;

    /// Exits out of the existing namespace.
    fn pop_namespace(&mut self, gadget_name: Option<String>)
        requires
            old(self).wf(),
        ensures
            final(self).wf(),
            old(self).evolves(final(self)),
            final(self).history() == old(self).history(),
    ;

    /// Commits to advice columns in the current phase and squeezes challenges.
    /// After a failed step the backend cannot be used any more.
    fn next_phase(&mut self) -> (r: Result<(), Error>)
        requires
            old(self).wf(),
        ensures
            r is Ok ==> final(self).wf() && final(self).history() == old(self).history().push(
                Action::NextPhase { known: history::known(final(self).history()) },
            ),
            r is Err ==> {
                &&& final(self).has_failed() || (history::phases_in(old(self).history())
                    >= MAX_PHASES && final(self).wf())
                &&& final(self).history() == old(self).history()
            },
            old(self).evolves(final(self)),
    ;
}

/// This is a trait that circuits provide implementations for so that a backend
/// can ask the circuit to synthesize.
pub trait Circuit<F: Field>: Sized {
    /// This is a configuration object that stores things like columns.
    type Config;

    /// The configuration is one that [`Circuit::configure`] makes. By default
    /// it can be any.
    open spec fn is_config(config: &Self::Config) -> bool {
        true
    }

    /// The circuit fits on this many advice columns of this many rows. By
    /// default it fits on any, which is so if it assigns no cells.
    open spec fn fits(&self, num_columns: nat, num_rows: nat) -> bool {
        true
    }

    /// Given these columns for constants and these instance columns, synthesis
    /// can take a backend to which has been done what `before` says to one to
    /// which has been done what `after` says. By default it can do anything.
    open spec fn synthesizes(
        &self,
        config: &Self::Config,
        constants: Seq<Column<Fixed>>,
        instances: Seq<Seq<F>>,
        before: Seq<Action<F>>,
        after: Seq<Action<F>>,
    ) -> bool {
        true
    }

    /// Given these columns for constants and these instance columns, a backend
    /// can fail on synthesis once that has taken it from what had been done to it
    /// before, as `before` says, to what `after` says. By default it can do so at
    /// any time.
    open spec fn fails(
        &self,
        config: &Self::Config,
        constants: Seq<Column<Fixed>>,
        instances: Seq<Seq<F>>,
        before: Seq<Action<F>>,
        after: Seq<Action<F>>,
    ) -> bool {
        true
    }

    /// Given these columns for constants and these instance columns, synthesis
    /// can be refused once it has taken a backend from what had been done to it
    /// before, as `before` says, to what `after` says, though the backend did not
    /// fail. By default it can be refused at any time.
    open spec fn refuses(
        &self,
        config: &Self::Config,
        constants: Seq<Column<Fixed>>,
        instances: Seq<Seq<F>>,
        before: Seq<Action<F>>,
        after: Seq<Action<F>>,
    ) -> bool {
        true
    }

    /// Synthesis from this phase on fails only if the backend does. By default
    /// it may fail for reasons of its own.
    open spec fn is_total(&self, phase: nat) -> bool {
        false
    }

    /// The circuit is given an opportunity to describe the exact gate
    /// arrangement, column arrangement, etc.
    fn configure(meta: &mut ConstraintSystem) -> (config: Self::Config)
        ensures
            Self::is_config(&config),
    ;

    /// Given the provided `cs`, synthesize the circuit.
    fn synthesize<CS: Assignment<F>>(
        &self,
        config: &Self::Config,
        constants: &Vec<Column<Fixed>>,
        cs: &mut CS,
    ) -> (r: Result<(), Error>)
        requires
            old(cs).wf(),
            Self::is_config(config),
            self.fits(old(cs).spec_num_columns(), old(cs).spec_num_rows()),
        ensures
            r is Ok ==> final(cs).wf() && self.synthesizes(
                config,
                constants@,
                old(cs).spec_instances(),
                old(cs).history(),
                final(cs).history(),
            ),
            r is Err ==> {
                ||| final(cs).has_failed() && self.fails(
                    config,
                    constants@,
                    old(cs).spec_instances(),
                    old(cs).history(),
                    final(cs).history(),
                )
                ||| final(cs).wf() && self.refuses(
                    config,
                    constants@,
                    old(cs).spec_instances(),
                    old(cs).history(),
                    final(cs).history(),
                )
            },
            r is Err && self.is_total(history::phases_in(old(cs).history()))
                ==> final(cs).has_failed(),
            old(cs).evolves(final(cs)),
    ;
}

} // verus!
