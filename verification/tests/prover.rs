use ff::PrimeField;
use halo2_proofs::arithmetic::eval_polynomial;
use halo2_proofs::bn256::{Fr, G1Affine, G1};
use halo2_proofs::curve::Curve;
use halo2_proofs::field::Field;
use halo2_proofs::helpers::SerdePrimeField;
use halo2_proofs::plonk::channel::Stage;
use halo2_proofs::plonk::circuit::{Advice, Column, Fixed, Instance, Phase, Value};
use halo2_proofs::plonk::{
    create_proof, create_proof_from_advice, synthesize_witness, ArgumentError, Arguments, Assigned,
    Assignment, Channel, Circuit, ConstraintSystem, Error, ProvingKey, VerifyingKey,
};
use halo2_proofs::poly::commitment::{Blind, Params, Prover, ProverQuery};
use halo2_proofs::poly::{
    Coeff, EvaluationDomain, ExtendedLagrangeCoeff, LagrangeCoeff, Polynomial, Rotation,
};
use halo2_proofs::rng::RandomSource;
use halo2_proofs::transcript::{TranscriptError, TranscriptWrite};
use std::cell::RefCell;
use std::rc::Rc;

fn fr(n: u64) -> Fr {
    let mut bytes = [0u8; 32];
    bytes[..8].copy_from_slice(&n.to_le_bytes());
    <Fr as SerdePrimeField>::from_repr(&bytes).unwrap()
}

fn root(k: u32) -> Fr {
    let mut root = halo2curves::bn256::Fr::ROOT_OF_UNITY;
    for _ in k..halo2curves::bn256::Fr::S {
        root = root * root;
    }
    let bytes: [u8; 32] = root.to_repr().into();
    <Fr as SerdePrimeField>::from_repr(&bytes).unwrap()
}

/// One thing that was seen by the transcript, the generator or an argument.
#[derive(Clone, Debug, PartialEq)]
enum Event {
    Squeeze(Fr),
    CommonScalar(Fr),
    CommonPoint([u8; 32], [u8; 32]),
    WriteScalar(Fr),
    WritePoint([u8; 32], [u8; 32]),
    Random(Fr),
    Call(String),
    Query(Fr, Vec<Fr>, Fr),
}

type Log = Rc<RefCell<Vec<Event>>>;

/// Writes down all that it sees, and refuses to absorb anything once it has
/// absorbed as much as it is allowed to.
struct Recorder {
    log: Log,
    squeezed: u64,
    allowed: usize,
}

impl Recorder {
    fn absorb(&mut self, event: Event) -> Result<(), TranscriptError> {
        if self.allowed == 0 {
            return Err(TranscriptError(self.log.borrow().len() as u64));
        }
        self.allowed -= 1;
        self.log.borrow_mut().push(event);
        Ok(())
    }
}

impl TranscriptWrite<Fr, G1Affine> for Recorder {
    fn squeeze_challenge_scalar(&mut self) -> Fr {
        self.squeezed += 1;
        let challenge = fr(100 + self.squeezed);
        self.log.borrow_mut().push(Event::Squeeze(challenge));
        challenge
    }

    fn common_point(&mut self, point: G1Affine) -> Result<(), TranscriptError> {
        let (x, y) = point.to_coordinates();
        self.absorb(Event::CommonPoint(x, y))
    }

    fn common_scalar(&mut self, scalar: Fr) -> Result<(), TranscriptError> {
        self.absorb(Event::CommonScalar(scalar))
    }

    fn write_point(&mut self, point: G1Affine) -> Result<(), TranscriptError> {
        let (x, y) = point.to_coordinates();
        self.absorb(Event::WritePoint(x, y))
    }

    fn write_scalar(&mut self, scalar: Fr) -> Result<(), TranscriptError> {
        self.absorb(Event::WriteScalar(scalar))
    }
}

/// Counts upwards.
struct Counter {
    log: Log,
    next: u64,
}

impl RandomSource<Fr> for Counter {
    fn random(&mut self) -> Fr {
        self.next += 1;
        let value = fr(self.next);
        self.log.borrow_mut().push(Event::Random(value));
        value
    }
}

fn bytes(v: &Fr) -> [u8; 32] {
    v.to_repr().try_into().unwrap()
}

/// The first coordinate of a commitment: the values, weighted by their rows.
fn weighted(values: &[Fr]) -> Fr {
    let mut sum = Fr::zero();
    for (i, v) in values.iter().enumerate() {
        sum = sum.add(&v.mul(&fr(i as u64 + 1)));
    }
    sum
}

struct Weights {
    k: u32,
}

impl Params<Fr, G1> for Weights {
    fn spec_k(&self) -> u32 {
        self.k
    }

    fn spec_n(&self) -> usize {
        1 << self.k
    }

    fn is_commitment(
        &self,
        poly: &Polynomial<Fr, LagrangeCoeff>,
        blind: Blind<Fr>,
        point: G1,
    ) -> bool {
        let affine = G1::batch_normalize(&vec![self.commit_lagrange(poly, blind), point]);
        affine[0].to_coordinates() == affine[1].to_coordinates()
    }

    fn k(&self) -> u32 {
        self.k
    }

    fn n(&self) -> usize {
        1 << self.k
    }

    fn commit_lagrange(&self, poly: &Polynomial<Fr, LagrangeCoeff>, blind: Blind<Fr>) -> G1 {
        let x = bytes(&weighted(poly.values()));
        G1::from_coordinates(x, bytes(&blind.0), bytes(&Fr::one())).unwrap()
    }
}

/// Arguments that write down what they are asked for.
struct Calls {
    log: Log,
    poly: Polynomial<Fr, Coeff>,
    satisfied: bool,
}

impl Calls {
    fn call(&self, text: String) {
        self.log.borrow_mut().push(Event::Call(text));
    }

    fn query(&self, point: u64) -> Vec<ProverQuery<'_, Fr>> {
        vec![ProverQuery { point: fr(point), poly: &self.poly, blind: Blind(fr(0)) }]
    }
}

impl Arguments<Fr, Recorder, Counter> for Calls {
    type LookupPermuted = String;
    type LookupCommitted = String;
    type LookupEvaluated = String;
    type PermutationCommitted = String;
    type PermutationEvaluated = String;
    type VanishingCommitted = ();
    type VanishingConstructed = ();
    type VanishingEvaluated = ();

    fn lookup_commit_permuted(
        &self,
        lookup: usize,
        theta: Fr,
        advice: &Vec<Polynomial<Fr, LagrangeCoeff>>,
        _fixed: &Vec<Polynomial<Fr, LagrangeCoeff>>,
        instance: &Vec<Polynomial<Fr, LagrangeCoeff>>,
        challenges: &Vec<Fr>,
        _rng: &mut Counter,
        _transcript: &mut Recorder,
    ) -> Result<String, ArgumentError> {
        if !self.satisfied {
            return Err(ArgumentError::ConstraintSystemFailure);
        }
        let name = format!("lookup {}", lookup);
        assert!(theta.is_equal(&fr(100 + 1 + challenges.len() as u64)));
        self.call(format!("permute {} {} {}", name, advice.len(), instance.len()));
        Ok(name)
    }

    fn permutation_commit(
        &self,
        advice: &Vec<Polynomial<Fr, LagrangeCoeff>>,
        _fixed: &Vec<Polynomial<Fr, LagrangeCoeff>>,
        _instance: &Vec<Polynomial<Fr, LagrangeCoeff>>,
        _beta: Fr,
        _gamma: Fr,
        _rng: &mut Counter,
        _transcript: &mut Recorder,
    ) -> Result<String, ArgumentError> {
        self.call(format!("commit permutation {}", advice.len()));
        Ok("permutation".to_string())
    }

    fn lookup_commit_product(
        &self,
        permuted: String,
        _beta: Fr,
        _gamma: Fr,
        _rng: &mut Counter,
        _transcript: &mut Recorder,
    ) -> Result<String, ArgumentError> {
        self.call(format!("commit {}", permuted));
        Ok(permuted)
    }

    fn vanishing_commit(
        &self,
        _rng: &mut Counter,
        _transcript: &mut Recorder,
    ) -> Result<(), ArgumentError> {
        self.call("commit vanishing".to_string());
        Ok(())
    }

    fn evaluate_h(
        &self,
        advice: &Vec<&[Polynomial<Fr, Coeff>]>,
        instance: &Vec<&[Polynomial<Fr, Coeff>]>,
        _challenges: &Vec<Fr>,
        _y: Fr,
        _beta: Fr,
        _gamma: Fr,
        _theta: Fr,
        lookups: &Vec<Vec<Stage<String>>>,
        permutations: &Vec<Stage<String>>,
    ) -> Polynomial<Fr, ExtendedLagrangeCoeff> {
        let names: Vec<&String> = lookups.iter().flatten().map(|l| l.value()).collect();
        self.call(format!(
            "quotient {} {} {:?} {}",
            advice.len(),
            instance.len(),
            names,
            permutations.len()
        ));
        Polynomial::new(vec![fr(9)])
    }

    fn vanishing_construct(
        &self,
        _committed: (),
        h: Polynomial<Fr, ExtendedLagrangeCoeff>,
        _rng: &mut Counter,
        _transcript: &mut Recorder,
    ) -> Result<(), ArgumentError> {
        assert!(h[0].is_equal(&fr(9)));
        self.call("construct vanishing".to_string());
        Ok(())
    }

    fn vanishing_evaluate(
        &self,
        _constructed: (),
        x: Fr,
        xn: Fr,
        _transcript: &mut Recorder,
    ) -> Result<(), ArgumentError> {
        assert!(xn.is_equal(&x.pow(8)));
        self.call("evaluate vanishing".to_string());
        Ok(())
    }

    fn permutation_evaluate_common(
        &self,
        _x: Fr,
        _transcript: &mut Recorder,
    ) -> Result<(), ArgumentError> {
        self.call("evaluate common".to_string());
        Ok(())
    }

    fn permutation_evaluate(
        &self,
        committed: String,
        _x: Fr,
        _transcript: &mut Recorder,
    ) -> Result<String, ArgumentError> {
        self.call(format!("evaluate {}", committed));
        Ok(committed)
    }

    fn lookup_evaluate(
        &self,
        committed: String,
        _x: Fr,
        _transcript: &mut Recorder,
    ) -> Result<String, ArgumentError> {
        self.call(format!("evaluate {}", committed));
        Ok(committed)
    }

    fn permutation_open<'a>(&'a self, _evaluated: &'a String, _x: Fr) -> Vec<ProverQuery<'a, Fr>> {
        self.query(1)
    }

    fn lookup_open<'a>(&'a self, _evaluated: &'a String, _x: Fr) -> Vec<ProverQuery<'a, Fr>> {
        self.query(2)
    }

    fn permutation_open_common<'a>(&'a self, _x: Fr) -> Vec<ProverQuery<'a, Fr>> {
        self.query(3)
    }

    fn vanishing_open<'a>(&'a self, _evaluated: &'a (), _x: Fr) -> Vec<ProverQuery<'a, Fr>> {
        self.query(4)
    }
}

/// An opening that writes down its queries. Instance columns are absorbed value
/// by value.
struct Opener {
    log: Log,
    opens: bool,
}

fn write_down(log: &Log, queries: Vec<ProverQuery<'_, Fr>>) {
    for q in queries {
        log.borrow_mut().push(Event::Query(q.point, q.poly.values().to_vec(), q.blind.0));
    }
}

impl Prover<Fr, Recorder, Counter> for Opener {
    const QUERY_INSTANCE: bool = false;

    fn create_proof<'a>(
        &self,
        _rng: &mut Counter,
        _transcript: &mut Recorder,
        queries: Vec<ProverQuery<'a, Fr>>,
    ) -> Result<(), halo2_proofs::poly::Error> {
        write_down(&self.log, queries);
        if self.opens {
            Ok(())
        } else {
            Err(halo2_proofs::poly::Error::OpeningError)
        }
    }
}

/// An opening that writes down its queries. Instance columns are committed to
/// and queried.
struct InstanceOpener {
    log: Log,
}

impl Prover<Fr, Recorder, Counter> for InstanceOpener {
    const QUERY_INSTANCE: bool = true;

    fn create_proof<'a>(
        &self,
        _rng: &mut Counter,
        _transcript: &mut Recorder,
        queries: Vec<ProverQuery<'a, Fr>>,
    ) -> Result<(), halo2_proofs::poly::Error> {
        write_down(&self.log, queries);
        Ok(())
    }
}

fn channel(log: &Log, allowed: usize) -> Channel<Fr, G1Affine, Recorder, Counter> {
    let transcript = Recorder { log: log.clone(), squeezed: 0, allowed };
    Channel::new(Counter { log: log.clone(), next: 0 }, transcript)
}

fn calls(log: &Log) -> Calls {
    Calls { log: log.clone(), poly: Polynomial::new(vec![fr(7)]), satisfied: true }
}

fn opener(log: &Log) -> Opener {
    Opener { log: log.clone(), opens: true }
}

fn key(cs: ConstraintSystem, fixed_polys: Vec<Polynomial<Fr, Coeff>>) -> ProvingKey<Fr> {
    let domain = EvaluationDomain::new(3, root(3)).unwrap();
    let vk = VerifyingKey { domain, cs, transcript_repr: fr(55) };
    ProvingKey { vk, fixed_values: vec![], fixed_polys }
}

fn column<C>(index: usize, column_type: C) -> Column<C> {
    Column { index, column_type }
}

#[derive(Clone, Copy)]
struct MyCircuit;

impl Circuit<Fr> for MyCircuit {
    type Config = ();

    fn configure(_meta: &mut ConstraintSystem) {}

    fn synthesize<CS: Assignment<Fr>>(
        &self,
        _config: &(),
        _constants: &Vec<Column<Fixed>>,
        _cs: &mut CS,
    ) -> Result<(), Error> {
        Ok(())
    }
}

#[test]
fn test_create_proof() {
    let params = Weights { k: 3 };
    let pk = key(ConstraintSystem { blinding_factors: 5, ..ConstraintSystem::empty() }, vec![]);
    let log = Log::default();

    // Create proof with wrong number of instances
    let (proof, channel) = create_proof(
        &params,
        &pk,
        &calls(&log),
        &opener(&log),
        &[MyCircuit, MyCircuit],
        &[],
        channel(&log, 100),
    );
    assert!(matches!(proof.unwrap_err(), Error::InvalidInstances));
    assert!(log.borrow().is_empty());

    // Create proof with correct number of instances
    let (proof, channel) = create_proof(
        &params,
        &pk,
        &calls(&log),
        &opener(&log),
        &[MyCircuit, MyCircuit],
        &[&[], &[]],
        channel,
    );
    proof.expect("proof generation should not fail");
    assert_eq!(channel.into_transcript().squeezed, 5);
    assert_eq!(log.borrow()[0], Event::CommonScalar(fr(55)));
}

/// A circuit with one instance column and two advice columns, all of one phase.
struct Copies;

fn copies() -> ConstraintSystem {
    ConstraintSystem {
        num_advice_columns: 2,
        num_instance_columns: 1,
        num_fixed_columns: 1,
        num_challenges: 1,
        num_lookups: 2,
        blinding_factors: 5,
        advice_column_phase: vec![Phase(0), Phase(0)],
        challenge_phase: vec![Phase(0)],
        advice_queries: vec![
            (column(1, Advice), Rotation::cur()),
            (column(0, Advice), Rotation::next()),
        ],
        instance_queries: vec![(column(0, Instance), Rotation::prev())],
        fixed_queries: vec![(column(0, Fixed), Rotation::cur())],
        ..ConstraintSystem::empty()
    }
}

fn copies_key() -> ProvingKey<Fr> {
    key(copies(), vec![Polynomial::new(vec![fr(1), fr(2)])])
}

impl Circuit<Fr> for Copies {
    type Config = ();

    fn configure(_meta: &mut ConstraintSystem) {}

    fn synthesize<CS: Assignment<Fr>>(
        &self,
        _config: &(),
        _constants: &Vec<Column<Fixed>>,
        cs: &mut CS,
    ) -> Result<(), Error> {
        let first = cs.query_instance(column(0, Instance), 0)?.assign()?;
        cs.assign_advice(column(0, Advice), 0, Value::known(Assigned::Trivial(first)));
        let half = Assigned::Rational(fr(12), fr(2));
        let cell = cs.assign_advice(column(1, Advice), 1, Value::known(half));
        assert!(matches!(cell.inner, Some(Assigned::Rational(_, _))));
        Ok(())
    }
}

/// The events of a proof for [`Copies`] up to the end of witness generation.
/// Two rows are usable, six are drawn at random.
fn copies_witness() -> Vec<Event> {
    let mut events = vec![Event::CommonScalar(fr(55)), Event::CommonScalar(fr(3))];
    events.extend((1..15).map(|i| Event::Random(fr(i))));
    let mut a = vec![fr(3), fr(0)];
    a.extend((1..7).map(fr));
    let mut b = vec![fr(0), fr(6)];
    b.extend((7..13).map(fr));
    events.push(Event::WritePoint(bytes(&weighted(&a)), bytes(&fr(13))));
    events.push(Event::WritePoint(bytes(&weighted(&b)), bytes(&fr(14))));
    events.push(Event::Squeeze(fr(101)));
    events
}

#[test]
fn steps_of_a_proof_come_in_order() {
    let log = Log::default();
    let (r, _) = create_proof(
        &Weights { k: 3 },
        &copies_key(),
        &calls(&log),
        &opener(&log),
        &[Copies],
        &[&[&[fr(3)]]],
        channel(&log, 100),
    );
    assert_eq!(r, Ok(()));
    let call = |text: &str| Event::Call(text.to_string());
    let mut events = copies_witness();
    events.push(Event::Squeeze(fr(102)));
    events.push(call("permute lookup 0 2 1"));
    events.push(call("permute lookup 1 2 1"));
    events.push(Event::Squeeze(fr(103)));
    events.push(Event::Squeeze(fr(104)));
    events.push(call("commit permutation 2"));
    events.push(call("commit lookup 0"));
    events.push(call("commit lookup 1"));
    events.push(call("commit vanishing"));
    events.push(Event::Squeeze(fr(105)));
    events.push(call("quotient 1 1 [\"lookup 0\", \"lookup 1\"] 1"));
    events.push(call("construct vanishing"));
    events.push(Event::Squeeze(fr(106)));
    let log = log.borrow();
    let n = events.len();
    assert_eq!(log[..n], events);

    // the columns are evaluated and opened at the same rotated points
    let d = EvaluationDomain::new(3, root(3)).unwrap();
    let coeffs = |values: Vec<u64>| {
        d.lagrange_to_coeff(d.lagrange_from_vec(values.into_iter().map(fr).collect()))
    };
    let a = coeffs(vec![3, 0, 1, 2, 3, 4, 5, 6]);
    let b = coeffs(vec![0, 6, 7, 8, 9, 10, 11, 12]);
    let x = fr(106);
    let next = x.mul(&root(3));
    assert_eq!(log[n], Event::WriteScalar(eval_polynomial(b.values(), x)));
    assert_eq!(log[n + 1], Event::WriteScalar(eval_polynomial(a.values(), next)));
    assert_eq!(log[n + 2], Event::WriteScalar(fr(1 + 2 * 106)));
    assert_eq!(
        log[n + 3..n + 8],
        [
            call("evaluate vanishing"),
            call("evaluate common"),
            call("evaluate permutation"),
            call("evaluate lookup 0"),
            call("evaluate lookup 1"),
        ]
    );
    let query = |point: u64| Event::Query(fr(point), vec![fr(7)], fr(0));
    assert_eq!(
        log[n + 8..],
        [
            Event::Query(x, b.values().to_vec(), fr(14)),
            Event::Query(next, a.values().to_vec(), fr(13)),
            query(1),
            query(2),
            query(2),
            Event::Query(x, vec![fr(1), fr(2)], Fr::one()),
            query(3),
            query(4),
        ]
    );
}

#[test]
fn instance_columns_can_be_queried() {
    let log = Log::default();
    let (r, _) = create_proof(
        &Weights { k: 3 },
        &copies_key(),
        &calls(&log),
        &InstanceOpener { log: log.clone() },
        &[Copies],
        &[&[&[fr(3)]]],
        channel(&log, 100),
    );
    assert_eq!(r, Ok(()));
    let log = log.borrow();
    // the padded column is committed to under the default blind
    assert_eq!(log[1], Event::CommonPoint(bytes(&fr(3)), bytes(&Fr::one())));
    let d = EvaluationDomain::new(3, root(3)).unwrap();
    let mut values = vec![Fr::zero(); 8];
    values[0] = fr(3);
    let poly = d.lagrange_to_coeff(d.lagrange_from_vec(values));
    let point = d.rotate_omega(fr(106), Rotation::prev());
    let squeeze = log.iter().position(|e| *e == Event::Squeeze(fr(106))).unwrap();
    assert_eq!(log[squeeze + 1], Event::WriteScalar(eval_polynomial(poly.values(), point)));
    let first = log.iter().find(|e| matches!(e, Event::Query(_, _, _))).unwrap();
    assert_eq!(*first, Event::Query(point, poly.values().to_vec(), Fr::one()));
}

#[test]
fn advice_can_be_handed_over() {
    let synthesized = Log::default();
    let (r, _) = create_proof(
        &Weights { k: 3 },
        &copies_key(),
        &calls(&synthesized),
        &opener(&synthesized),
        &[Copies],
        &[&[&[fr(3)]]],
        channel(&synthesized, 100),
    );
    assert_eq!(r, Ok(()));
    let handed = Log::default();
    let mut a = vec![Fr::zero(); 8];
    a[0] = fr(3);
    let mut b = vec![Fr::zero(); 8];
    b[1] = fr(6);
    let (r, _) = create_proof_from_advice(
        &Weights { k: 3 },
        &copies_key(),
        &calls(&handed),
        &opener(&handed),
        &[&[fr(3)]],
        vec![a, b],
        channel(&handed, 100),
    );
    assert_eq!(r, Ok(()));
    assert_eq!(*handed.borrow(), *synthesized.borrow());
}

#[test]
fn handed_over_advice_needs_its_instances() {
    let log = Log::default();
    let (r, _) = create_proof_from_advice(
        &Weights { k: 3 },
        &copies_key(),
        &calls(&log),
        &opener(&log),
        &[],
        vec![vec![Fr::zero(); 8], vec![Fr::zero(); 8]],
        channel(&log, 100),
    );
    assert_eq!(r, Err(Error::InvalidInstances));
    assert!(log.borrow().is_empty());
}

#[test]
fn witness_generation_stops_where_arguments_start() {
    let log = Log::default();
    let (r, _) = synthesize_witness::<Fr, G1, Weights, Opener, Recorder, Counter, Copies>(
        &Weights { k: 3 },
        &copies_key(),
        &[Copies],
        &[&[&[fr(3)]]],
        channel(&log, 100),
    );
    let (instance, advice, challenges) = r.unwrap_or_else(|_| panic!("synthesis failed"));
    assert_eq!(*log.borrow(), copies_witness());
    assert_eq!(challenges, vec![fr(101)]);
    assert_eq!((instance.len(), advice.len()), (1, 1));
    let mut padded = vec![Fr::zero(); 8];
    padded[0] = fr(3);
    assert_eq!(instance[0].instance_values[0].values(), &padded[..]);
    let values: Vec<Fr> = [0, 6, 7, 8, 9, 10, 11, 12].into_iter().map(fr).collect();
    assert_eq!(advice[0].advice_values[1].values(), &values[..]);
    for i in 0..8u64 {
        let point = root(3).pow(i);
        let value = eval_polynomial(advice[0].advice_polys[1].values(), point);
        assert!(value.is_equal(&values[i as usize]));
        let value = eval_polynomial(instance[0].instance_polys[0].values(), point);
        assert!(value.is_equal(&padded[i as usize]));
    }
}

#[test]
fn instances_must_match_the_circuit() {
    let log = Log::default();
    let run = |instances: &[&[&[Fr]]]| {
        let (r, _) = create_proof(
            &Weights { k: 3 },
            &copies_key(),
            &calls(&log),
            &opener(&log),
            &[Copies],
            instances,
            channel(&log, 100),
        );
        r
    };
    assert_eq!(run(&[]), Err(Error::InvalidInstances));
    assert_eq!(run(&[&[]]), Err(Error::InvalidInstances));
    assert_eq!(run(&[&[&[fr(1)], &[fr(1)]]]), Err(Error::InvalidInstances));
    assert_eq!(run(&[&[&[fr(1)]], &[&[fr(1)]]]), Err(Error::InvalidInstances));
    assert!(log.borrow().is_empty());
    let (r, _) = synthesize_witness::<Fr, G1, Weights, Opener, Recorder, Counter, Copies>(
        &Weights { k: 3 },
        &copies_key(),
        &[Copies],
        &[&[]],
        channel(&log, 100),
    );
    assert!(matches!(r, Err(Error::InvalidInstances)));
    assert!(log.borrow().is_empty());
}

#[test]
fn failures_of_the_transcript_come_through() {
    // the key, an instance, two commitments and three evaluations are absorbed
    for allowed in 0..7 {
        let log = Log::default();
        let (r, _) = create_proof(
            &Weights { k: 3 },
            &copies_key(),
            &calls(&log),
            &opener(&log),
            &[Copies],
            &[&[&[fr(3)]]],
            channel(&log, allowed),
        );
        // with the number of events before it, and there are none after it
        let events = log.borrow().len() as u64;
        assert_eq!(r, Err(Error::Transcript(TranscriptError(events))));
    }
    let log = Log::default();
    let (r, _) = create_proof(
        &Weights { k: 3 },
        &copies_key(),
        &calls(&log),
        &opener(&log),
        &[Copies],
        &[&[&[fr(3)]]],
        channel(&log, 7),
    );
    assert_eq!(r, Ok(()));
}

#[test]
fn failures_of_arguments_come_through() {
    let log = Log::default();
    let unsatisfied = Calls { satisfied: false, ..calls(&log) };
    let (r, _) = create_proof(
        &Weights { k: 3 },
        &copies_key(),
        &unsatisfied,
        &opener(&log),
        &[Copies],
        &[&[&[fr(3)]]],
        channel(&log, 100),
    );
    assert_eq!(r, Err(Error::ConstraintSystemFailure));
    let (r, _) = create_proof(
        &Weights { k: 3 },
        &copies_key(),
        &calls(&log),
        &Opener { log: log.clone(), opens: false },
        &[Copies],
        &[&[&[fr(3)]]],
        channel(&log, 100),
    );
    assert_eq!(r, Err(Error::ConstraintSystemFailure));
}

#[test]
fn circuits_can_refuse() {
    // the circuit asks for a row of the instance that is not there
    let log = Log::default();
    let (r, _) = create_proof(
        &Weights { k: 3 },
        &copies_key(),
        &calls(&log),
        &opener(&log),
        &[Copies],
        &[&[&[]]],
        channel(&log, 100),
    );
    assert_eq!(r, Err(Error::Synthesis));
    assert_eq!(*log.borrow(), vec![Event::CommonScalar(fr(55))]);
}

#[test]
fn rows_that_blind_columns_are_not_used() {
    let run = |a: Vec<Fr>, b: Vec<Fr>| {
        let log = Log::default();
        let (r, _) = create_proof_from_advice(
            &Weights { k: 3 },
            &copies_key(),
            &calls(&log),
            &opener(&log),
            &[&[fr(3)]],
            vec![a, b],
            channel(&log, 100),
        );
        assert_eq!(r, Ok(()));
        let events = log.borrow().clone();
        events
    };
    let zero = run(vec![fr(4); 2].into_iter().chain(vec![fr(0); 6]).collect(), vec![fr(5); 8]);
    let other = run(vec![fr(4); 8], vec![fr(5); 2].into_iter().chain(vec![fr(9); 6]).collect());
    assert_eq!(zero, other);
}

#[test]
fn appended_zeroes_make_no_difference_to_queried_columns() {
    let run = |instance: &[Fr]| {
        let log = Log::default();
        let (r, _) = create_proof(
            &Weights { k: 3 },
            &copies_key(),
            &calls(&log),
            &InstanceOpener { log: log.clone() },
            &[Copies],
            &[&[instance]],
            channel(&log, 100),
        );
        assert_eq!(r, Ok(()));
        let events = log.borrow().clone();
        events
    };
    assert_eq!(run(&[fr(3)]), run(&[fr(3), fr(0)]));
    assert_ne!(run(&[fr(3)]), run(&[fr(3), fr(1)]));
}

#[test]
fn runs_that_fail_take_the_same_steps() {
    let columns = |last: u64| {
        let mut a = vec![fr(last); 8];
        let mut b = vec![fr(last + 1); 8];
        for row in 0..2 {
            a[row] = Fr::zero();
            b[row] = Fr::zero();
        }
        a[0] = fr(3);
        b[1] = fr(6);
        vec![a, b]
    };
    // the key, an instance, two commitments and three evaluations are absorbed
    for allowed in 0..8 {
        let synthesized = Log::default();
        let (r, _) = create_proof(
            &Weights { k: 3 },
            &copies_key(),
            &calls(&synthesized),
            &opener(&synthesized),
            &[Copies],
            &[&[&[fr(3)]]],
            channel(&synthesized, allowed),
        );
        assert_eq!(r.is_ok(), allowed == 7);
        for last in [0, 50] {
            let handed = Log::default();
            let (s, _) = create_proof_from_advice(
                &Weights { k: 3 },
                &copies_key(),
                &calls(&handed),
                &opener(&handed),
                &[&[fr(3)]],
                columns(last),
                channel(&handed, allowed),
            );
            assert_eq!(s, r);
            assert_eq!(*handed.borrow(), *synthesized.borrow());
        }
        let generated = Log::default();
        let (s, _) = synthesize_witness::<Fr, G1, Weights, Opener, Recorder, Counter, Copies>(
            &Weights { k: 3 },
            &copies_key(),
            &[Copies],
            &[&[&[fr(3)]]],
            channel(&generated, allowed),
        );
        let (generated, synthesized) = (generated.borrow(), synthesized.borrow());
        match s {
            Ok(_) => {
                assert!(allowed >= 4);
                assert!(generated.len() < synthesized.len());
                assert_eq!(generated[..], synthesized[..generated.len()]);
                assert!(matches!(synthesized[generated.len()], Event::Squeeze(_)));
            }
            Err(e) => {
                assert!(allowed < 4);
                assert_eq!(Err(e), r);
                assert_eq!(*generated, *synthesized);
            }
        }
    }
}

#[test]
fn appended_zeroes_make_no_difference_to_runs_that_fail() {
    let run = |instance: &[Fr], allowed: usize| {
        let log = Log::default();
        let (r, _) = create_proof(
            &Weights { k: 3 },
            &copies_key(),
            &calls(&log),
            &InstanceOpener { log: log.clone() },
            &[Copies],
            &[&[instance]],
            channel(&log, allowed),
        );
        let events = log.borrow().clone();
        (r, events)
    };
    for allowed in 0..8 {
        let (r, events) = run(&[fr(3)], allowed);
        assert_eq!(r, Err(Error::Transcript(TranscriptError(events.len() as u64))));
        assert_eq!(run(&[fr(3), fr(0)], allowed), (r, events));
    }
    assert_eq!(run(&[fr(3)], 8).0, Ok(()));
}
