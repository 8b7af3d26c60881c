//! A text layout engine: greedy, whitespace-delimited line breaking under a
//! width constraint, and conversion between screen coordinates and byte
//! offsets (hit testing), with offsets resolved at Unicode grapheme-cluster
//! boundaries.
//!
//! All geometry is expressed in integer layout units supplied by a
//! [`measure::Measure`] oracle (the text measurement back end); text is an
//! immutable UTF-8 byte sequence, and every offset into it is a byte offset.

use vstd::prelude::*;

mod grapheme;
mod hit;
mod laws;
mod layout;
mod lines;
mod measure;
mod num;
mod types;
mod utf8;

pub use grapheme::GraphemeBounds;
pub use grapheme::get_grapheme_boundaries;
pub use grapheme::point_x_in_grapheme;
pub use hit::hit_test_line_point;
pub use hit::hit_test_line_position;
pub use layout::TextLayout;
pub use layout::TextLayoutBuilder;
pub use lines::LineMetric;
pub use lines::calculate_line_metrics;
pub use measure::CharTableMeasure;
pub use measure::Measure;
pub use measure::TableMeasure;

pub use num::sat_add;
pub use types::Error;
pub use types::HitTestPoint;
pub use types::HitTestPosition;
pub use types::Point;
pub use types::Rect;
pub use types::Size;
pub use types::TextAlignment;
pub use types::invalid_input;
pub use types::not_supported;

verus! {

} // verus!
