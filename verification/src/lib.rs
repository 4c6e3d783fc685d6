//! Arbitrary-precision spectral analysis of a finite Weil form: its construction, its smallest
//! eigenstate, the roots of its secular function, its parity sectors, and the records by which
//! results are stored and read again.

pub mod accuracy;
pub mod assembly;
pub mod bounds;
pub mod certificate;
pub mod choices;
pub mod closeness;
pub mod components;
pub mod concentration;
pub mod config;
pub mod decimal;
pub mod discovery;
pub mod eigenpair;
pub mod eigenvalues;
pub mod eigvec_cache;
pub mod envelope;
pub mod error;
pub mod evidence;
pub mod exact;
pub mod factorization;
pub mod float;
pub mod form_values;
pub mod formulas;
pub mod identity;
pub mod lexical;
pub mod limbs;
pub mod margins;
pub mod matrix;
pub mod monotone;
pub mod order;
pub mod outcome;
pub mod payload;
pub mod portable;
pub mod primes;
pub mod projection;
pub mod range;
pub mod reading;
pub mod reals;
pub mod records;
pub mod reductions;
pub mod refine;
pub mod replays;
pub mod residuals;
pub mod roots;
pub mod rounding;
pub mod route;
pub mod run;
pub mod sector;
pub mod secular;
pub mod selections;
pub mod spectrum;
pub mod square_roots;
pub mod state;
pub mod steps;
pub mod sums;
pub mod symmetry;
pub mod tau_cache;
pub mod text;
pub mod tolerances;
pub mod totals;
pub mod tridiagonal;
pub mod window;
