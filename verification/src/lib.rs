//! Responsive grid layout for a terminal window switcher.
//!
//! The library turns a viewport width and an item count into a column count,
//! per-cell dimensions and a row-major partition of the viewport into cell
//! regions; it maps a pointer coordinate back to the item whose region
//! contains it; and it wraps label text onto a bounded number of lines.
//! Rendering and hit-testing both derive their geometry from the same pure
//! functions, so the picture on screen and the click targets cannot diverge.

pub mod layout;
pub mod wrap;
