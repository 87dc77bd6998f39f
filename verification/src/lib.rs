//! Inline flow layout: text, images and atomic objects set on wrapped lines
//! that share a baseline.

pub mod backend;
pub mod calls;
pub mod content;
pub mod coverage;
pub mod element;
pub mod fit;
pub mod fragment;
pub mod frame;
pub mod geometry;
pub mod image;
pub mod item;
pub mod kit;
pub mod layout;
pub mod marks;
pub mod measured;
pub mod number;
pub mod order;
pub mod painted;
pub mod placement;
pub mod plain;
pub mod reuse;
pub mod segmentation;
pub mod selection;
pub mod spans;
pub mod text;
pub mod wrap;
