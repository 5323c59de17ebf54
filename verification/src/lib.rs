//! A layout engine for declarative document templates.
//!
//! A document is described by a tree of layout primitives (vertical stacks,
//! horizontal rows, text leaves and named placeholders) whose widths mix
//! fixed units, percentages and fill-to-available sizing.  The engine binds a
//! data record into the template, resolves every width against the page
//! geometry, measures text against real font metrics, wraps over-wide text
//! and rows, and finally emits absolutely positioned text boxes, page by
//! page.  Rendering backends consume those boxes; they live outside this
//! crate.

pub mod alignment;
pub mod any_layout;
pub mod container;
pub mod data_schema;
pub mod document;
pub mod element;
pub mod font;
pub mod layout;
pub mod layout_schema;
pub mod error;
pub mod margin;
pub mod point;
pub mod resume_data;
pub mod resume_layout;
pub mod spatial_box;
pub mod text_layout_schema;
pub mod width;
