pub mod deque;
pub mod linked_list;
pub mod sequence_laws;
pub mod string_pool;
pub mod string_tools;
pub mod tree;
