pub mod frontier;
pub mod pending;
pub mod predicate;
pub mod progress;
pub mod reconciler;
pub mod work;
