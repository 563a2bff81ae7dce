// Translation key trees, and their reconciliation with the keys that source
// files use.

pub mod extract;
pub mod lang;
pub mod reconcile;
pub mod tree;
