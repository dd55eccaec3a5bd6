pub mod chunk;
pub mod cli;
pub mod config;
pub mod hash;
pub mod metadata;
pub mod protocol;
pub mod reassemble;
pub mod receiver;
pub mod sender;
