pub mod error;
pub mod copy;
pub mod bytes;
pub mod block;
pub mod memory_devices;
pub mod path;
pub mod filesystem;
pub mod ffat;
pub mod files;
pub mod fffs;
