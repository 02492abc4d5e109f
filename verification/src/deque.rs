pub mod circular_buffer;
