//! Turns SQL `CREATE TABLE` statements into table descriptions and writes
//! small XML documents.

pub mod mapping;
pub mod pattern;
pub mod scanner;
pub mod sql;
pub mod systemtrayerror;
pub mod text;
pub mod xml_generator;
