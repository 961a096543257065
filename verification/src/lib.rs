//! Box-tree layout for HTML documents: the decisions a layout pass makes, stated
//! and proved.

pub mod assemble;
pub mod budget;
pub mod cells;
pub mod chars;
pub mod child_boxes;
pub mod columns;
pub mod construct;
pub mod corrections;
pub mod counter;
pub mod dispatch;
pub mod document;
pub mod dom;
pub mod dump;
pub mod element_boxes;
pub mod engine;
pub mod font_metrics;
pub mod fonts;
pub mod fragments;
pub mod geometry;
pub mod grid;
pub mod hit_test;
pub mod images;
pub mod inline_content;
pub mod inline_layout;
pub mod inline_order;
pub mod intrinsic_size;
pub mod multicol;
pub mod numbers;
pub mod overflow;
pub mod pagination;
pub mod patch;
pub mod positioning;
pub mod replaced;
pub mod scroll;
pub mod scroll_into_view;
pub mod sizing;
pub mod style;
pub mod svg;
pub mod table;
pub mod tag;
pub mod text;
pub mod text_style;
pub mod transform;
pub mod tree;
pub mod units;
pub mod webfont;

use vstd::prelude::*;

verus! {

} // verus!
