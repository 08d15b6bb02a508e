//! Styling and layout core of a minimal web-document renderer.
//!
//! Given a parsed document tree and a parsed stylesheet, the library
//! computes the effective property values for every element (CSS cascade
//! with selector matching and specificity ranking) and a positioned
//! block box-model layout (size, margin, border, padding, absolute x/y).
//! All geometry is in whole pixels.

pub mod scan;
pub mod assoc;
pub mod dom;
pub mod order;
pub mod css;
pub mod style;
pub mod layout;
pub mod html;
