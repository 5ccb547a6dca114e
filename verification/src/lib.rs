//! A small symbolic-algebra core: algebraic expression trees over
//! arbitrary-precision integers, a normalizer that rewrites any tree into a
//! canonical reduced form, a symbolic differentiator, and a parser and
//! renderer for the accompanying formula syntax. Every transformation carries
//! a contract against a mathematical model of the tree, and the central laws
//! (normalization is idempotent; parsing inverts rendering on canonical
//! trees) are proved.

pub mod arith;
pub mod bignum;
pub mod differentiate;
pub mod expression;
pub mod namespace;
pub mod parser;
pub mod reduce;
pub mod round_trip;
pub mod render;
pub mod reduce_laws;
