//! Order keys drawn from the non-negative rationals, and the rules that keep a
//! user-reorderable list in order while moving one item costs one key write.
pub mod fraction;
pub mod reorder;
pub mod list;
