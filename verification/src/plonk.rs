//! The prover of the PLONKish arithmetisation.

pub mod account;
pub mod account_effects;
pub mod account_synthesis;
pub mod account_witness;
pub mod arguments;
pub mod assigned;
pub mod channel;
pub mod circuit;
pub mod collection;
pub mod commit;
pub mod error;
pub mod halting;
pub mod halting_proof;
pub mod halting_witness;
pub mod history;
pub mod keys;
pub mod laws;
pub mod protocol;
pub mod prover;
pub mod queries;
pub mod replay;
pub mod replay_proof;
pub mod runs;
pub mod stages;
pub mod steps;
pub mod witness;

pub use assigned::Assigned;
pub use channel::{ArgumentError, Arguments, Channel};
pub use circuit::{Assignment, Circuit, ConstraintSystem};
pub use error::Error;
pub use keys::{ProvingKey, VerifyingKey};
pub use prover::{create_proof, create_proof_from_advice};
pub use witness::{synthesize_witness, AdviceColumns, AdviceSingle, InstanceSingle};
