use vstd::prelude::*;

verus! {

/// The file that holds the configuration when the environment names none.
pub const CONFIG_FILE: &'static str = "instrumentation.conf";

/// The environment variable that holds the configuration, or the name of the file that does.
pub const ENV_VAR: &'static str = "INSTRUMENTATION";

/// The command that asks for the value of a key.
pub const GET_KEY: &'static str = "GET_KEY";

/// The command that asks whether a key is defined.
pub const HAS_KEY: &'static str = "HAS_KEY";

/// The command that asks for the instruments, or the subkeys of an instrument.
pub const GET_SUBKEYS: &'static str = "GET_SUBKEYS";

} // verus!
