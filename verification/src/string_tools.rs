pub mod str_split;
