//! Route analytics on integer geometry: coordinates in microdegrees,
//! elevations and distances in millimetres.

pub mod geometry;
pub mod models;
pub mod gpx_parser;
pub mod elevation_processor;
pub mod gradient_analysis;
pub mod elevation_service;
pub mod bbox;
pub mod itra_calculator;
pub mod route_matching;
pub mod rtree;
pub mod segment_index;
pub mod settings;
pub mod errors;
pub mod accounts;
pub mod gpx_text;
pub mod synthesis;
pub mod gpx_scan;
pub mod gpx_export;
