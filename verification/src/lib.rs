//! An encrypted query pipeline: a client encrypts a SQL-like query, a server
//! evaluates it homomorphically over an encrypted relational store it cannot
//! read, and only the client decodes the answer.
//!
//! The core is three verified stages sharing one data model: the encoder
//! (`program`) lowers a parsed query to a Predicate Program of encrypted
//! tokens; the evaluator (`eval`) runs that program row by row, entirely in
//! ciphertext space, visiting every row identically; the decoder (`decode`)
//! turns the result back into plaintext. Every value travels as one 64-bit
//! word (`values`); note the design bound this brings for text: a text value
//! holds at most eight non-zero bytes, and longer or zero-containing texts
//! are refused at ingestion and encoding. The laws the pipeline obeys —
//! obliviousness, correctness against the plaintext semantics, stability
//! under re-encryption and re-evaluation — are stated and proved in `laws`.

pub mod compare;
pub mod decode;
pub mod error;
pub mod eval;
pub mod fhe;
pub mod laws;
pub mod program;
pub mod query;
pub mod table;
pub mod values;
