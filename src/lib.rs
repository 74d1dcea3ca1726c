//! Layout core of a rendering engine: arena-backed trees, box generation,
//! fragment trees and fragmentation.
pub mod arena;
pub mod box_tree;
pub mod components;
pub mod context;
pub mod display;
pub mod formatting_context;
pub mod fragment_tree;
pub mod fragmentation;
pub mod layout;
pub mod metrics;
pub mod style;
pub mod text;
pub mod tree;
