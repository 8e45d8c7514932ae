use ff::PrimeField;
use halo2_proofs::bn256::{Fr, G1Affine, G1};
use halo2_proofs::curve::Curve;
use halo2_proofs::field::Field;
use halo2_proofs::helpers::SerdePrimeField;
use halo2_proofs::plonk::circuit::{
    Advice, Any, Challenge, Column, Fixed, Instance, Phase, Selector, Value,
};
use halo2_proofs::plonk::witness::{build_instance_single, column_and_challenge_indices};
use halo2_proofs::plonk::{
    synthesize_witness, AdviceSingle, Assigned, Assignment, Channel, Circuit, ConstraintSystem,
    Error, ProvingKey, VerifyingKey,
};
use halo2_proofs::poly::commitment::{Blind, Params, Prover, ProverQuery};
use halo2_proofs::poly::{EvaluationDomain, LagrangeCoeff, Polynomial};
use halo2_proofs::rng::RandomSource;
use halo2_proofs::transcript::{TranscriptError, TranscriptWrite};
use std::cell::{Cell, RefCell};
use std::rc::Rc;

fn fr(n: u64) -> Fr {
    let mut bytes = [0u8; 32];
    bytes[..8].copy_from_slice(&n.to_le_bytes());
    <Fr as SerdePrimeField>::from_repr(&bytes).unwrap()
}

fn root(k: u32) -> Fr {
    let mut root = halo2curves::bn256::Fr::ROOT_OF_UNITY;
    for _ in k..halo2curves::bn256::Fr::S {
        root = root * root;
    }
    let bytes: [u8; 32] = root.to_repr().into();
    <Fr as SerdePrimeField>::from_repr(&bytes).unwrap()
}

/// One thing that was seen by the transcript or the generator.
#[derive(Clone, Debug, PartialEq)]
enum Event {
    Squeeze(Fr),
    CommonScalar(Fr),
    CommonPoint([u8; 32], [u8; 32]),
    WriteScalar(Fr),
    WritePoint([u8; 32], [u8; 32]),
    Random(Fr),
}

type Log = Rc<RefCell<Vec<Event>>>;

/// Writes down all that it sees, and refuses to absorb anything once it has
/// absorbed as much as it is allowed to.
struct Recorder {
    log: Log,
    squeezed: u64,
    allowed: usize,
}

impl Recorder {
    fn absorb(&mut self, event: Event) -> Result<(), TranscriptError> {
        if self.allowed == 0 {
            return Err(TranscriptError(self.log.borrow().len() as u64));
        }
        self.allowed -= 1;
        self.log.borrow_mut().push(event);
        Ok(())
    }
}

impl TranscriptWrite<Fr, G1Affine> for Recorder {
    fn squeeze_challenge_scalar(&mut self) -> Fr {
        self.squeezed += 1;
        let challenge = fr(100 + self.squeezed);
        self.log.borrow_mut().push(Event::Squeeze(challenge));
        challenge
    }

    fn common_point(&mut self, point: G1Affine) -> Result<(), TranscriptError> {
        let (x, y) = point.to_coordinates();
        self.absorb(Event::CommonPoint(x, y))
    }

    fn common_scalar(&mut self, scalar: Fr) -> Result<(), TranscriptError> {
        self.absorb(Event::CommonScalar(scalar))
    }

    fn write_point(&mut self, point: G1Affine) -> Result<(), TranscriptError> {
        let (x, y) = point.to_coordinates();
        self.absorb(Event::WritePoint(x, y))
    }

    fn write_scalar(&mut self, scalar: Fr) -> Result<(), TranscriptError> {
        self.absorb(Event::WriteScalar(scalar))
    }
}

/// Counts upwards.
struct Counter {
    log: Log,
    next: u64,
}

impl RandomSource<Fr> for Counter {
    fn random(&mut self) -> Fr {
        self.next += 1;
        let value = fr(self.next);
        self.log.borrow_mut().push(Event::Random(value));
        value
    }
}

fn bytes(v: &Fr) -> [u8; 32] {
    v.to_repr().try_into().unwrap()
}

/// The first coordinate of a commitment: the values, weighted by their rows.
fn weighted(values: &[Fr]) -> Fr {
    let mut sum = Fr::zero();
    for (i, v) in values.iter().enumerate() {
        sum = sum.add(&v.mul(&fr(i as u64 + 1)));
    }
    sum
}

struct Weights {
    k: u32,
}

impl Params<Fr, G1> for Weights {
    fn spec_k(&self) -> u32 {
        self.k
    }

    fn spec_n(&self) -> usize {
        1 << self.k
    }

    fn is_commitment(
        &self,
        poly: &Polynomial<Fr, LagrangeCoeff>,
        blind: Blind<Fr>,
        point: G1,
    ) -> bool {
        let affine = G1::batch_normalize(&vec![self.commit_lagrange(poly, blind), point]);
        affine[0].to_coordinates() == affine[1].to_coordinates()
    }

    fn k(&self) -> u32 {
        self.k
    }

    fn n(&self) -> usize {
        1 << self.k
    }

    fn commit_lagrange(&self, poly: &Polynomial<Fr, LagrangeCoeff>, blind: Blind<Fr>) -> G1 {
        let x = bytes(&weighted(poly.values()));
        G1::from_coordinates(x, bytes(&blind.0), bytes(&Fr::one())).unwrap()
    }
}

struct Opener;

impl Prover<Fr, Recorder, Counter> for Opener {
    const QUERY_INSTANCE: bool = false;

    fn create_proof<'a>(
        &self,
        _rng: &mut Counter,
        _transcript: &mut Recorder,
        _queries: Vec<ProverQuery<'a, Fr>>,
    ) -> Result<(), halo2_proofs::poly::Error> {
        Ok(())
    }
}

fn key(cs: ConstraintSystem) -> ProvingKey<Fr> {
    let domain = EvaluationDomain::new(3, root(3)).unwrap();
    let vk = VerifyingKey { domain, cs, transcript_repr: fr(55) };
    ProvingKey { vk, fixed_values: vec![], fixed_polys: vec![] }
}

fn run<C: Circuit<Fr>>(
    log: &Log,
    allowed: usize,
    cs: ConstraintSystem,
    circuits: &[C],
    instances: &[&[&[Fr]]],
) -> Result<(Vec<AdviceSingle<Fr>>, Vec<Fr>), Error> {
    let transcript = Recorder { log: log.clone(), squeezed: 0, allowed };
    let (r, _) = synthesize_witness::<Fr, G1, Weights, Opener, Recorder, Counter, C>(
        &Weights { k: 3 },
        &key(cs),
        circuits,
        instances,
        Channel::new(Counter { log: log.clone(), next: 0 }, transcript),
    );
    r.map(|(_, advice, challenges)| (advice, challenges))
}

fn column<C>(index: usize, column_type: C) -> Column<C> {
    Column { index, column_type }
}

/// One column and one challenge in each of two phases, with six usable rows.
fn two_phases() -> ConstraintSystem {
    ConstraintSystem {
        num_advice_columns: 2,
        num_instance_columns: 1,
        num_challenges: 2,
        blinding_factors: 1,
        advice_column_phase: vec![Phase(1), Phase(0)],
        challenge_phase: vec![Phase(1), Phase(0)],
        ..ConstraintSystem::empty()
    }
}

const EARLY: Challenge = Challenge { index: 1, phase: Phase(0) };
const LATE: Challenge = Challenge { index: 0, phase: Phase(1) };

/// Moves on to the second phase by itself.
struct Interactive;

impl Circuit<Fr> for Interactive {
    type Config = ();

    fn configure(_meta: &mut ConstraintSystem) {}

    fn synthesize<CS: Assignment<Fr>>(
        &self,
        _config: &(),
        _constants: &Vec<Column<Fixed>>,
        cs: &mut CS,
    ) -> Result<(), Error> {
        cs.push_namespace("outer");
        cs.enter_region("first");
        cs.annotate_column("a", column(0, Any::Advice));
        cs.enable_selector("on", &Selector(0), 0)?;
        assert!(cs.get_challenge(EARLY).inner.is_none());
        cs.assign_advice(column(1, Advice), 2, Value::known(Assigned::Trivial(fr(5))));
        cs.assign_fixed(column(0, Fixed), 0, Assigned::Zero);
        cs.copy(column(0, Any::Advice), 0, column(1, Any::Advice), 0);
        cs.fill_from_row(column(0, Fixed), 0, Value::unknown())?;
        cs.exit_region();
        cs.pop_namespace(None);
        cs.next_phase()?;
        let challenge = cs.get_challenge(EARLY).assign()?;
        assert!(cs.get_challenge(LATE).inner.is_none());
        cs.assign_advice(column(0, Advice), 0, Value::known(Assigned::Trivial(challenge)));
        // the first phase is over: nothing that is assigned to its columns counts
        cs.assign_advice(column(1, Advice), 2, Value::known(Assigned::Trivial(fr(6))));
        cs.next_phase()?;
        assert!(cs.get_challenge(LATE).inner.is_some());
        Ok(())
    }
}

#[test]
fn challenges_are_known_once_their_phase_is_over() {
    let log = Log::default();
    let (advice, challenges) = run(&log, 100, two_phases(), &[Interactive], &[&[&[]]]).unwrap();
    assert_eq!(challenges, vec![fr(102), fr(101)]);
    let early: Vec<Fr> = [0, 0, 5, 0, 0, 0, 1, 2].into_iter().map(fr).collect();
    let late: Vec<Fr> = [101, 0, 0, 0, 0, 0, 4, 5].into_iter().map(fr).collect();
    assert_eq!(advice[0].advice_values[1].values(), &early[..]);
    assert_eq!(advice[0].advice_values[0].values(), &late[..]);
    let point = |values: &[Fr], blind: u64| {
        Event::WritePoint(bytes(&weighted(values)), bytes(&fr(blind)))
    };
    assert_eq!(
        *log.borrow(),
        vec![
            Event::CommonScalar(fr(55)),
            Event::Random(fr(1)),
            Event::Random(fr(2)),
            Event::Random(fr(3)),
            point(&early, 3),
            Event::Squeeze(fr(101)),
            Event::Random(fr(4)),
            Event::Random(fr(5)),
            Event::Random(fr(6)),
            point(&late, 6),
            Event::Squeeze(fr(102)),
        ]
    );
}

/// Never moves on by itself, and counts how often it is synthesized.
struct Passive {
    calls: Cell<u64>,
}

impl Circuit<Fr> for Passive {
    type Config = ();

    fn configure(_meta: &mut ConstraintSystem) {}

    fn synthesize<CS: Assignment<Fr>>(
        &self,
        _config: &(),
        _constants: &Vec<Column<Fixed>>,
        cs: &mut CS,
    ) -> Result<(), Error> {
        self.calls.set(self.calls.get() + 1);
        let value = Value::known(Assigned::Trivial(fr(self.calls.get())));
        cs.assign_advice(column(0, Advice), 0, value);
        cs.assign_advice(column(1, Advice), 0, value);
        Ok(())
    }
}

#[test]
fn passive_circuits_are_synthesized_in_every_phase() {
    let circuit = [Passive { calls: Cell::new(0) }];
    let (advice, _) = run(&Log::default(), 100, two_phases(), &circuit, &[&[&[]]]).unwrap();
    assert_eq!(circuit[0].calls.get(), 2);
    assert_eq!(advice[0].advice_values[1][0], fr(1));
    assert_eq!(advice[0].advice_values[0][0], fr(2));
}

/// Asks for cells of the instance, and passes on what it is told.
struct Curious {
    column: usize,
    row: usize,
    told: Cell<Option<Result<Fr, Error>>>,
}

impl Circuit<Fr> for Curious {
    type Config = ();

    fn configure(_meta: &mut ConstraintSystem) {}

    fn synthesize<CS: Assignment<Fr>>(
        &self,
        _config: &(),
        _constants: &Vec<Column<Fixed>>,
        cs: &mut CS,
    ) -> Result<(), Error> {
        let told = cs.query_instance(column(self.column, Instance), self.row);
        self.told.set(Some(told.and_then(|v| v.assign())));
        Ok(())
    }
}

#[test]
fn instances_are_read_within_the_usable_rows() {
    let ask = |column: usize, row: usize| {
        let circuit = [Curious { column, row, told: Cell::new(None) }];
        let cs = ConstraintSystem {
            num_instance_columns: 1,
            blinding_factors: 1,
            ..ConstraintSystem::empty()
        };
        run(&Log::default(), 100, cs, &circuit, &[&[&[fr(7), fr(8)]]]).unwrap();
        circuit[0].told.get().unwrap()
    };
    assert_eq!(ask(0, 1), Ok(fr(8)));
    assert_eq!(ask(0, 2), Err(Error::BoundsFailure));
    assert_eq!(ask(1, 0), Err(Error::BoundsFailure));
    assert_eq!(ask(0, 6), Err(Error::NotEnoughRowsAvailable { current_k: 3 }));
    assert_eq!(ask(1, 6), Err(Error::NotEnoughRowsAvailable { current_k: 3 }));
}

/// Moves on as often as it is told to.
struct Restless {
    times: usize,
}

impl Circuit<Fr> for Restless {
    type Config = ();

    fn configure(_meta: &mut ConstraintSystem) {}

    fn synthesize<CS: Assignment<Fr>>(
        &self,
        _config: &(),
        _constants: &Vec<Column<Fixed>>,
        cs: &mut CS,
    ) -> Result<(), Error> {
        for _ in 0..self.times {
            cs.next_phase()?;
        }
        Ok(())
    }
}

#[test]
fn there_are_three_phases() {
    let cs = || ConstraintSystem { blinding_factors: 1, ..ConstraintSystem::empty() };
    for times in 0..4 {
        let log = Log::default();
        assert!(run(&log, 100, cs(), &[Restless { times }], &[&[]]).is_ok());
        // phases beyond those of the columns leave no trace
        assert_eq!(*log.borrow(), vec![Event::CommonScalar(fr(55))]);
    }
    let r = run(&Log::default(), 100, cs(), &[Restless { times: 4 }], &[&[]]);
    assert!(matches!(r, Err(Error::Synthesis)));
}

#[test]
fn several_circuits_are_synthesized_in_turn() {
    let log = Log::default();
    let cs = ConstraintSystem {
        num_instance_columns: 2,
        blinding_factors: 1,
        ..ConstraintSystem::empty()
    };
    let circuits = [Restless { times: 0 }, Restless { times: 1 }];
    let instances: [&[&[Fr]]; 2] = [&[&[fr(1), fr(2)], &[fr(3)]], &[&[], &[fr(4)]]];
    let (advice, challenges) = run(&log, 100, cs, &circuits, &instances).unwrap();
    assert_eq!(advice.len(), 2);
    assert!(challenges.is_empty());
    let scalars = [55, 1, 2, 3, 4];
    let events: Vec<Event> = scalars.into_iter().map(|v| Event::CommonScalar(fr(v))).collect();
    assert_eq!(*log.borrow(), events);
}

#[test]
fn transcripts_can_fail_in_any_phase() {
    // the key, and a commitment in each phase
    for allowed in [0, 2] {
        let circuit = [Passive { calls: Cell::new(0) }];
        let log = Log::default();
        let r = run(&log, allowed, two_phases(), &circuit, &[&[&[]]]);
        // with the number of events before it, and there are none after it
        let events = log.borrow().len() as u64;
        assert!(matches!(r, Err(Error::Transcript(TranscriptError(e))) if e == events));
    }
    // the circuit hands the failure on
    let r = run(&Log::default(), 2, two_phases(), &[Interactive], &[&[&[]]]);
    assert!(matches!(r, Err(Error::Synthesis)));
    assert!(run(&Log::default(), 3, two_phases(), &[Interactive], &[&[&[]]]).is_ok());
}

#[test]
fn indices_are_bucketed_by_phase() {
    let cs = ConstraintSystem {
        advice_column_phase: vec![Phase(2), Phase(0), Phase(1), Phase(0)],
        challenge_phase: vec![Phase(1), Phase(1)],
        ..ConstraintSystem::empty()
    };
    let (columns, challenges) = column_and_challenge_indices(&cs);
    assert_eq!(columns, [vec![1, 3], vec![2], vec![0]]);
    assert_eq!(challenges, [vec![], vec![0, 1], vec![]]);
}

#[test]
fn phases_reach_up_to_the_last_column() {
    let phases = |list: Vec<Phase>| {
        let cs = ConstraintSystem {
            num_advice_columns: list.len(),
            advice_column_phase: list,
            ..ConstraintSystem::empty()
        };
        cs.phases().iter().map(|p| p.to_u8()).collect::<Vec<u8>>()
    };
    assert_eq!(phases(vec![]), vec![0]);
    assert_eq!(phases(vec![Phase(0), Phase(2), Phase(0)]), vec![0, 1, 2]);
    assert_eq!(Phase(1).next(), Phase(2));
}

#[test]
fn instances_are_padded_with_zeroes() {
    let domain = EvaluationDomain::new(3, root(3)).unwrap();
    let cs = ConstraintSystem { blinding_factors: 5, ..ConstraintSystem::empty() };
    let columns: [&[Fr]; 2] = [&[fr(1), fr(2)], &[]];
    let single = build_instance_single::<Fr, G1, Weights>(&Weights { k: 3 }, &domain, &cs, &columns);
    let mut first = vec![Fr::zero(); 8];
    first[0] = fr(1);
    first[1] = fr(2);
    assert_eq!(single.instance_values[0].values(), &first[..]);
    assert_eq!(single.instance_values[1].values(), &[Fr::zero(); 8]);
    assert_eq!(single.instance_polys[1].values(), &[Fr::zero(); 8]);
    // the coefficients add up to the value at one
    let mut sum = Fr::zero();
    for c in single.instance_polys[0].iter() {
        sum = sum.add(c);
    }
    assert!(sum.is_equal(&fr(1)));
}

#[test]
fn values_are_assigned_only_if_known() {
    assert!(matches!(Value::<Fr>::unknown().assign(), Err(Error::Synthesis)));
    assert_eq!(Value::known(fr(3)).assign(), Ok(fr(3)));
    let blind: Blind<Fr> = Blind::default();
    assert!(blind.0.is_equal(&Fr::one()));
}

/// Remembers the columns for constants that it is given.
struct Constant {
    seen: RefCell<Vec<usize>>,
}

impl Circuit<Fr> for Constant {
    type Config = ();

    fn configure(_meta: &mut ConstraintSystem) {}

    fn synthesize<CS: Assignment<Fr>>(
        &self,
        _config: &(),
        constants: &Vec<Column<Fixed>>,
        _cs: &mut CS,
    ) -> Result<(), Error> {
        self.seen.borrow_mut().extend(constants.iter().map(|column| column.index()));
        Ok(())
    }
}

#[test]
fn circuits_are_given_the_columns_for_constants() {
    let cs = ConstraintSystem {
        num_fixed_columns: 3,
        blinding_factors: 1,
        constants: vec![column(2, Fixed), column(0, Fixed)],
        ..ConstraintSystem::empty()
    };
    let circuit = [Constant { seen: RefCell::new(vec![]) }];
    assert!(run(&Log::default(), 100, cs, &circuit, &[&[]]).is_ok());
    assert_eq!(*circuit[0].seen.borrow(), vec![2, 0]);
}
