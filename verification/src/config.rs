use vstd::prelude::*;

verus! {

/// Tuning of a transfer: chunking, pacing, retransmission and idling.
#[derive(Debug, Clone)]
pub struct Config {
    pub chunk_size: usize,
    pub send_delay_ms: u64,
    pub retry_after_ms: u64,
    pub max_retries: u32,
    pub idle_timeout_ms: u64,
}

impl Default for Config {
    fn default() -> (cfg: Self)
        ensures
            cfg.chunk_size == 1024,
            cfg.send_delay_ms == 50,
            cfg.retry_after_ms == 200,
            cfg.max_retries == 5,
            cfg.idle_timeout_ms == 5_000,
    {
        Self {
            chunk_size: 1024,
            send_delay_ms: 50,
            retry_after_ms: 200,
            max_retries: 5,
            idle_timeout_ms: 5_000,
        }
    }
}

} // verus!
