//! An interpreter for behaviour trees with bounded, allocation-free
//! execution state: a fixed-capacity traversal stack, a flat array of
//! layout nodes threaded by child and sibling indices, and a single
//! `execute` pass that walks the tree iteratively to one overall status.

pub mod behaviour_tree;
pub mod laws;
pub mod stack;

pub use behaviour_tree::Action;
pub use behaviour_tree::BehaviourTree;
pub use behaviour_tree::CountdownAction;
pub use behaviour_tree::IndexAction;
pub use behaviour_tree::LayoutNode;
pub use behaviour_tree::RuntimeData;
pub use behaviour_tree::Status;
pub use stack::Stack;
pub use stack::StackError;
