//! In-memory HTML tree with CSS-style selection, text extraction and
//! re-serialization.
//!
//! A document is an arena of nodes linked by parent/children handles.  A
//! tree sink builds the arena from parse events, a selector engine matches
//! elements (optionally against a `:scope` anchor), and a serializer walks
//! a subtree back out to markup.

pub mod element_ref;
pub mod html;
pub mod node;
pub mod selector;
pub mod ser;
pub mod strutil;
pub mod tree;
