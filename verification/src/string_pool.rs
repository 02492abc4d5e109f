pub mod string_pool;
