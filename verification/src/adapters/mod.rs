pub mod file_queue;
