pub mod cpu;
pub mod manager;
pub mod memory;
