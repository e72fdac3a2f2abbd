pub mod command;
pub mod ipam;
pub mod network;
pub mod veth;
