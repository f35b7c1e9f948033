pub mod prefixes;
pub mod trailing;
pub mod thread;
