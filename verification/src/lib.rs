//! Verified core of the pollywiki ingest: entity schema, text normalisation,
//! source record shaping and the bundle derivation rules.

pub mod aec;
pub mod aec_profiles;
pub mod collate;
pub mod run;
pub mod collections;
pub mod derive;
pub mod aph;
pub mod config;
pub mod handbook;
pub mod html;
pub mod js_url;
pub mod schema;
pub mod sorting;
pub mod summarise;
pub mod slug;
pub mod text;
pub mod tvfy;
pub mod wikidata;
