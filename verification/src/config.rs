//! The application configuration: the spool file to append to and the sender
//! address. The surrounding program reads the configuration file and collects
//! the permission modes of the file and its ancestors; the decisions on that
//! data are made here.

use vstd::prelude::*;
use crate::error::Error;

verus! {

/// Application configuration.
#[derive(PartialEq, Eq, Debug)]
pub struct Config {
    /// Path to the spool file, or `-` for the standard output.
    pub spool_file: String,
    /// Sender address.
    pub sender: String,
}

/// The string value at `key` in the TOML document `doc`, or nothing when the
/// document does not parse, or the key is missing, or its value is not a
/// string. The `toml` crate's parser decides; the result depends on the two
/// texts alone.
pub uninterp spec fn toml_str_value(doc: Seq<char>, key: Seq<char>) -> Option<Seq<char>>;

/// Relies on `str::parse::<toml::Table>` and `toml::Value::as_str`: the
/// string value at `key` in the document `doc`.
#[verifier::external_body]
fn toml_lookup_str(doc: &str, key: &str) -> (r: Option<String>)
    ensures
        match r {
            Some(v) => toml_str_value(doc@, key@) == Some(v@),
            None => toml_str_value(doc@, key@) is None,
        },
{
    let table: toml::Table = match doc.parse() {
        Ok(t) => t,
        Err(_) => return None,
    };
    match table.get(key) {
        Some(v) => match v.as_str() {
            Some(s) => Some(s.to_string()),
            None => None,
        },
        None => None,
    }
}

/// The two configuration values a TOML document yields, when it yields any.
pub open spec fn spec_config_values(doc: Seq<char>) -> Option<(Seq<char>, Seq<char>)> {
    if toml_str_value(doc, "spool_file"@) is Some && toml_str_value(doc, "sender"@) is Some {
        Some((toml_str_value(doc, "spool_file"@)->Some_0, toml_str_value(doc, "sender"@)->Some_0))
    } else {
        None
    }
}

impl Config {
    /// Load the configuration from the text of a TOML file.
    ///
    /// Returns `Ok` exactly when the text parses as TOML and holds string
    /// values for both `spool_file` and `sender`; otherwise the TOML error.
    pub fn new_from_toml_file(toml_str: &str) -> (r: Result<Config, Error>)
        ensures
            match r {
                Ok(c) => spec_config_values(toml_str@) == Some((c.spool_file@, c.sender@)),
                Err(e) => spec_config_values(toml_str@) is None && e == Error::ConfigToml,
            },
    {
        let spool_file = toml_lookup_str(toml_str, "spool_file");
        let sender = toml_lookup_str(toml_str, "sender");
        match (spool_file, sender) {
            (Some(sp), Some(se)) => Ok(Config { spool_file: sp, sender: se }),
            _ => Err(Error::ConfigToml),
        }
    }

    /// Load the configuration from the text of the default TOML file, which
    /// the surrounding program has read and whose lineage it has checked:
    /// `ancestors_world_writable` says whether the file or any ancestor
    /// directory is world writable, in which case the text is rejected.
    pub fn new_from_default_toml_file(ancestors_world_writable: bool, toml_str: &str) -> (r:
        Result<Config, Error>)
        ensures
            ancestors_world_writable ==> r == Err::<Config, Error>(
                Error::ConfigFileWorldWritable,
            ),
            !ancestors_world_writable ==> match r {
                Ok(c) => spec_config_values(toml_str@) == Some((c.spool_file@, c.sender@)),
                Err(e) => spec_config_values(toml_str@) is None && e == Error::ConfigToml,
            },
    {
        if ancestors_world_writable {
            return Err(Error::ConfigFileWorldWritable);
        }
        Self::new_from_toml_file(toml_str)
    }
}

/// Whether a Unix permission mode grants write access to group or others.
pub fn is_world_writable(mode: u32) -> (r: bool)
    ensures
        r == (mode & 0o022 != 0),
{
    mode & 0o022 != 0
}

/// Whether any of the given permission modes — the configuration file's own
/// and those of its ancestor directories, as the surrounding program
/// collected them — grants write access to group or others.
pub fn is_world_writable_ancestors(modes: &Vec<u32>) -> (r: bool)
    ensures
        r == exists|k: int| 0 <= k < modes@.len() && (modes@[k] & 0o022) != 0,
{
    let mut i: usize = 0;
    while i < modes.len()
        invariant
            0 <= i <= modes@.len(),
            forall|k: int| 0 <= k < i ==> (modes@[k] & 0o022) == 0,
        decreases modes@.len() - i,
    {
        if is_world_writable(modes[i]) {
            return true;
        }
        i += 1;
    }
    false
}

} // verus!
