use vstd::prelude::*;

verus! {

/// The command line of the `spex` program.
#[derive(Debug)]
pub struct Cli {
    pub cmd: Cmd,
    /// Increase log verbosity (-v info, -vv debug)
    pub verbose: u8,
}

/// What `spex` is asked to do.
#[derive(Debug)]
pub enum Cmd {
    /// Send a file to a peer
    Send { bind: String, peer: String, file: String, chunk_size: usize, delay_ms: u64 },
    /// Receive a file from a peer
    Recv { bind: String, peer: String, out: String },
}

impl Cmd {
    /// The name of the subcommand.
    pub fn name(&self) -> (name: &'static str)
        ensures
            self is Send ==> name@ == "send"@,
            self is Recv ==> name@ == "recv"@,
    {
        match self {
            Cmd::Send { .. } => "send",
            Cmd::Recv { .. } => "recv",
        }
    }
}

} // verus!
