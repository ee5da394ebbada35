//! Fraud scoring by nearest neighbours.
//!
//! A card transaction is a vector of features. Threshold rules settle the clear
//! cases; the nearest of a large set of labelled reference vectors vote on the
//! rest. The library reads the documents, builds, stores and searches the
//! index of the reference vectors, and decides what the server answers.

pub mod balance;
pub mod cache;
pub mod cache_laws;
pub mod calendar;
pub mod cluster_laws;
pub mod dataset;
pub mod distance;
pub mod distance_laws;
pub mod document_laws;
pub mod engine;
pub mod fastpath;
pub mod field_laws;
pub mod file_laws;
pub mod http;
pub mod index_file;
pub mod index_laws;
pub mod ivf;
pub mod json_parser;
pub mod json_values;
pub mod kmeans;
pub mod lenience_laws;
pub mod mcc_risk;
pub mod number;
pub mod ranking;
pub mod reference_laws;
pub mod references;
pub mod request_laws;
pub mod scan;
pub mod scoring_laws;
pub mod search_laws;
pub mod server;
pub mod spelling;
pub mod text_laws;
pub mod vectorize;
pub mod vote_laws;
pub mod words;
