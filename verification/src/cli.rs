//! The command line of the tool, as plain values.

use vstd::prelude::*;

verus! {

/// The parsed command line.
#[derive(Debug)]
pub struct Cli {
    pub command: Option<Commands>,
    /// Options of the default command, pairing.
    pub pair: PairArgs,
}

/// The commands of the tool.
#[derive(Debug)]
pub enum Commands {
    /// Pair a device by QR code (the default).
    Pair(PairArgs),
    /// Only show the pairing QR code.
    Qr(QrArgs),
}

/// Options of the pairing command.
#[derive(Debug)]
pub struct PairArgs {
    /// Seconds to wait for the pairing service.
    pub timeout: u64,
    /// The `adb` to use instead of searching for one.
    pub adb_path: Option<String>,
}

/// Options of the `qr` command.
#[derive(Debug)]
pub struct QrArgs {
    /// Where to write an SVG copy of the code.
    pub svg: Option<String>,
    /// Where to write a PNG copy of the code.
    pub png: Option<String>,
    /// Print the payload text even on a terminal.
    pub print_payload: bool,
}

impl Cli {
    /// The command to run: the one named, or pairing with the top-level
    /// options when none is.
    pub fn into_command(self) -> (c: Commands)
        ensures
            c == match self.command {
                Some(named) => named,
                None => Commands::Pair(self.pair),
            },
    {
        match self.command {
            Some(named) => named,
            None => Commands::Pair(self.pair),
        }
    }
}

} // verus!
