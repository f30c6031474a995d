//! The failures the library distinguishes. The surrounding program maps each
//! variant to an exit code and a human-readable message; the payloads of the
//! underlying I/O failures stay with that program.

use vstd::prelude::*;

verus! {

/// What went wrong, by phase.
#[derive(Clone, Copy, Debug, PartialEq, Eq, Structural)]
pub enum Error {
    /// The configuration file or one of its ancestor directories is world
    /// writable.
    ConfigFileWorldWritable,
    /// The configuration file could not be read.
    ConfigIo,
    /// The configuration text does not hold the expected TOML document.
    ConfigToml,
    /// The mail message could not be read from the input stream.
    ReadMessage,
    /// The mbox record could not be appended to the spool file.
    WriteSpool,
    /// The mbox record could not be written to the standard output.
    WriteSpoolStdOut,
}

} // verus!
