pub mod log_merge;
