pub mod mips;
pub mod n64;
