//! A minimal document-styling-and-layout pipeline: a stylesheet parser that
//! turns source text into a rule set ordered by selector specificity, and a
//! block-layout engine that turns a styled element tree into a tree of
//! positioned, sized boxes.
//!
//! Lengths are carried as fixed-point pixel counts (thousandths of a pixel),
//! so every computation is exact integer arithmetic.

pub mod css;
pub mod parser;
pub mod style;
pub mod layout;
