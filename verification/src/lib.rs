//! LogHound: a temporal knowledge graph over Windows security telemetry.

pub mod text;
pub mod time;
pub mod num;
pub mod strmap;
pub mod ids;
pub mod index;
pub mod node;
pub mod dsl;
pub mod edge;
pub mod event;
pub mod group;
pub mod binary64;
pub mod decimal;
pub mod rules;
pub mod engine;
pub mod identity;
pub mod builder;
pub mod correlator;
pub mod timestamp;
pub mod record;
pub mod oplc;
pub mod parser;
pub mod config;
pub mod normalizer;
pub mod alerts;
pub mod store;
pub mod analytics;
pub mod sigma;
pub mod tally;
pub mod pipeline;
pub mod query;
