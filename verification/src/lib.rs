pub mod limbs;
pub mod arith;
pub mod bignum;
pub mod mont;
pub mod fast;
pub mod primes;
pub mod number;
pub mod keys;
pub mod secret;
pub mod scheme;
pub mod laws;
