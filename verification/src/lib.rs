//! Commit phase of FRI, the low-degree test behind STARK-style proofs.
//!
//! A prover holds a polynomial and an evaluation domain. Each round folds the
//! polynomial to half its length with a fold coefficient, squares the first
//! half of the domain, evaluates the folded polynomial over the folded domain
//! and binds the evaluations with a Merkle root. The rounds, from the initial
//! objects down to a constant polynomial, form the transcript that is handed
//! to a verifier.
//!
//! Values are `i128` integers. Every arithmetic step is checked: a result
//! that leaves the `i128` range is reported as
//! [`FriError::ArithmeticOverflow`], never wrapped.

pub mod commitment;
pub mod encoding;
pub mod engine;
pub mod error;
pub mod folding;
pub mod layer;
pub mod numeric;
pub mod polynomial;
pub mod rounds;
pub mod run;

pub use commitment::commit;
pub use encoding::encode_decimal;
pub use engine::{fri, fri_with_challenges};
pub use error::FriError;
pub use folding::{next_fri_domain, next_fri_polynomial};
pub use layer::next_fri_layer;
pub use polynomial::Polynomial;
pub use rounds::{domain_supports, fold_rounds, is_power_of_two};
pub use run::Transcript;
