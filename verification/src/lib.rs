//! FoldQuery core: the verified logic behind the papercraft unfolder and its
//! CAD assistant.

pub mod text;
pub mod unfold;
pub mod order;
pub mod provider;
pub mod json;
pub mod llm;
pub mod agent;
pub mod project;
pub mod python;
pub mod sidecar;
