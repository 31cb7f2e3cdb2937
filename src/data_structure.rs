pub mod binary_tree;
pub mod doubly_linked_list;
pub mod heap;
pub mod linked_list;
pub mod hash_map;
pub mod queue;
pub mod stack;
