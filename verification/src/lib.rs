pub mod adaptive;
pub mod coverage;
pub mod generator;
pub mod lines;
pub mod model;
pub mod patterns;
pub mod plan;
pub mod rng;
pub mod strmap;
pub mod template;
pub mod text;
pub mod auth;
pub mod accounts;
pub mod storage;
pub mod laws;
pub mod directions;
pub mod grouping;
