//! A minimal rendering pipeline for a block-model document layout:
//! style cascade resolution, box layout, painting to a pixel canvas,
//! and serialization to a vector (PDF) document.

pub mod css;
pub mod dom;
pub mod layout;
pub mod painting;
pub mod pdf;
pub mod style;
pub mod window;
