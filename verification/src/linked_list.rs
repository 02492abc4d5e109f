pub mod doubly;
pub mod singly;
