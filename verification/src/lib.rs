pub mod arith;
pub mod basicblock;
pub mod curve;
pub mod dag;
pub mod double;
pub mod field;
pub mod keys;
pub mod kzh3;
pub mod math;
pub mod mle;
pub mod model;
pub mod poly;
pub mod select;
pub mod shape;
pub mod sumcheck;
pub mod transcript;
pub mod witness;
