//! Stellar resolution: terms, unification, constellations and interactive
//! execution, with verified contracts.
pub mod term;
pub mod subst;
pub mod unify;
pub mod alpha;
pub mod polarised;
pub mod constellation;
pub mod interactive;
pub mod display;
pub mod modulation;
pub mod omega_weight;
pub mod mll;
pub mod termkit;
pub mod pda;
pub mod nfta;
pub mod parse;
pub mod prim;
pub mod perturbation;
pub mod oracle;
pub mod mll2i;
