//! Data-shaping pipeline for simple charts.
//!
//! The crate ingests an untyped tabular dataset (header row plus rows of
//! string cells), maps columns into typed numeric or categorical series,
//! groups rows by categorical keys, and produces a geometry description
//! (bars, points, line segments, histogram bins) for a rendering backend.
//! Numeric cells are parsed to fixed-point integers so that every stage of
//! the pipeline carries exact values.

pub mod aggregate;
pub mod chartspec;
pub mod histogram;
pub mod mapper;
pub mod pipeline;
pub mod series;
pub mod table;
pub mod value;
