pub mod codec;
pub mod digits;
pub mod directory;
pub mod escape;
pub mod filter;
pub mod node;
pub mod types;
pub mod utils;
