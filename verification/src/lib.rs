//! USB request capture records: wire formats, reassembly, filtering and pcapng.
pub mod bytes;
pub mod wire;
pub mod archive;
pub mod filter;
pub mod lexer;
pub mod parser;
pub mod ranges;
pub mod readback;
pub mod reassembly;
pub mod search;
pub mod pcapng;
pub mod pcapng_read;
pub mod kernel_config;
pub mod output;
pub mod audio;
pub mod live;
pub mod bpf;
pub mod devices;
