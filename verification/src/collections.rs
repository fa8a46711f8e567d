pub mod flag;
pub mod fuzzy;
pub mod iter;
pub(crate) mod mapfacts;
pub mod node;
pub mod rbtree;

pub use fuzzy::Finder as FuzzyFinder;
pub use rbtree::RBTreeMap;

