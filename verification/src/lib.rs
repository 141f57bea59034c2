//! A terminal menu-navigation engine.
//!
//! The engine models ordered, heterogeneous screen content (static text plus
//! selectable buttons) and a cursor of selection, under two addressing
//! schemes: a flat one (`engine::Page` / `engine::Book`, numbered screens
//! linked by jump targets) and a hierarchical one (`tree::MenuTree`, named
//! nodes entered and left by descend/ascend). Rendering and input polling
//! belong to an external driver that calls into the engine and repaints its
//! output.

pub mod engine;
pub mod game;
pub mod laws;
pub mod player;
pub mod tree;
