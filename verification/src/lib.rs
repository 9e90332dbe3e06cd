//! Content model and deployment logic of a static website generator.

pub mod text;
pub mod datetime;
pub mod primitives;
pub mod blog;
pub mod posts;
pub mod csv;
pub mod markdown;
pub mod regex;
pub mod prelude;
pub mod homepage;
pub mod cv;
pub mod navbar;
pub mod projects;
pub mod titles;
pub mod notes;
pub mod other;
pub mod deployment;
pub mod sorting;
pub mod pathpattern;
pub mod cli;
