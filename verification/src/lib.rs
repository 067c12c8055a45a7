pub mod artifact;
pub mod bundled_stubs;
pub mod clearing;
pub mod declaration;
pub mod edits;
pub mod errors;
pub mod findings;
pub mod fix_run;
pub mod fixer;
pub mod imports;
pub mod laws;
mod memo;
pub mod merge;
pub mod mro;
pub mod names;
pub mod order;
mod parallel;
pub mod propagate;
pub mod reduce;
pub mod resolution;
pub mod resolver;
pub mod run_tree;
pub mod safety;
pub mod text;
pub mod workspace;
