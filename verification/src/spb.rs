//! The queries of the Semantic Publishing Benchmark, read off the property
//! graph that an N-Triples load makes.

pub mod access;
pub mod tally;
pub mod a9;
pub mod a2;
pub mod q2;
pub mod tagging;
pub mod topics;
pub mod q1;
pub mod q3;
pub mod q4;
pub mod a1;
pub mod a10;
pub mod a3;
pub mod a5;
pub mod a7;
pub mod a8;
pub mod a4;
pub mod a6;
pub mod a18;
pub mod q7;
pub mod a13;
pub mod a14;
pub mod q5;
pub mod a19;
pub mod a25;
pub mod a15;
pub mod a20;
pub mod a21;
pub mod a22;
pub mod a16;
pub mod a23;
