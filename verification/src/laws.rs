//! What the operations of the library are for, stated over their inputs and results alone.
pub mod clearing;
pub mod declaring;
pub mod editing;
pub mod fixing;
pub mod merging;
pub mod method_order;
pub mod ordering;
pub mod propagating;
pub mod records;
pub mod reducing;
pub mod resolving;
pub mod settling;
pub mod text;
pub mod verdicts;
pub mod workspaces;
