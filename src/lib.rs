pub mod circuit;
pub mod error;
pub mod field;
pub mod mle;
pub mod poly;
pub mod sumcheck;
pub mod transcript;
pub mod wiring;
pub mod gkr;
pub mod shamir;
