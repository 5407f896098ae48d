//! A solver that packs shaped parts onto a rectangular board so that
//! numeric attribute targets and placement rules all hold.
//!
//! - [`mask`]: part shapes, their quarter turns and bounding boxes.
//! - [`grid`]: the board and the all-or-nothing placement of one mask.
//! - [`placement`]: the admissible locations of a single part.
//! - [`search`]: the backtracking search over all requirements.
//! - [`polyhedral`]: which multiplicities of parts can meet the targets.

mod array;
pub mod grid;
pub mod mask;
pub mod order;
pub mod placement;
pub mod polyhedral;
pub mod search;
