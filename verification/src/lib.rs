//! Verified building blocks of the LDBC benchmark families over a property
//! graph: the Graphalytics algorithms and their dataset format and output
//! validation, the N-Triples reader and the RDF-to-property-graph mapping of
//! the SPB family, the SNB and FinBench graphs built from the benchmark
//! tables, LDBC date arithmetic, JSON output and the benchmark run
//! configuration.

pub mod text;
pub mod numtext;
pub mod textlines;
pub mod dates;
pub mod json;
pub mod ranking;
pub mod hashed;
pub mod bench;
pub mod topology;
pub mod graphalytics;
pub mod components;
pub mod propagation;
pub mod clustering;
pub mod dataset;
pub mod validate;
pub mod ntriples;
pub mod rdfload;
pub mod closure;
pub mod rdfgraph;
pub mod textorder;
pub mod spb;
pub mod interactive;
pub mod bi;
pub mod tables;
pub mod finbench;
pub mod social;
