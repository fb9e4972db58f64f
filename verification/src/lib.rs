pub mod bits;
pub mod field;
pub mod pairing;
pub mod r1cs;
pub mod r1cs_circuit;
pub mod circuit;
pub mod libra;
pub mod extension;
pub mod multilinear;
pub mod sumcheck;
pub mod transcript;
pub mod univariate;
pub mod gate_eval_extension;
pub mod cli_functions;
pub mod evaluation;
pub mod completeness;
pub mod multilinear_values;
pub mod satisfaction;
pub mod relabelling;
pub mod gate_eval_values;
pub mod gkr;
pub mod circom_gkr;
