pub mod btree;
