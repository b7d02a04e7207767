//! Scene Graph Service: the logic behind an industrial digital-twin scene.
//!
//! The crate holds the Logical Scene Graph and everything that decides over it:
//! the overlay of pins and opinions, the Flow3D language, interest management,
//! the resident runtime graph, telemetry resolution, the renderer bridge and the
//! geometry store. Each function states what it returns or changes.

pub mod alert;
pub mod asking;
pub mod attention;
pub mod batching;
pub mod bridge;
pub mod dict;
pub mod fake_bridge;
pub mod geomstore;
pub mod hash;
pub mod hydrate;
pub mod import;
pub mod indexing;
pub mod interest;
pub mod json;
pub mod lsg;
pub mod mirror;
pub mod model;
pub mod opinion;
pub mod order;
pub mod overlay;
pub mod overridden;
pub mod pipeline;
pub mod promql;
pub mod publish;
pub mod report;
pub mod resolver;
pub mod rsg;
pub mod scalar;
pub mod serve;
pub mod spatial;
pub mod synth;
pub mod table;
pub mod text;
pub mod dsl;
