//! Instruments: named sources of metrics that an application registers.
use vstd::prelude::*;

verus! {

/// An instrument, known by its name.
pub struct Instrument {
    pub name: &'static str,
}

/// What an instrument answers. An application implements the methods it
/// supports; the others answer that nothing is there.
pub trait Instrumentable {
    /// The subkeys under `root` (the top level when `root` is `None`).
    fn get_subkeys(root: Option<String>) -> (r: Option<Vec<String>>)
        default_ensures
            r is None,
    {
        None
    }

    /// The value of `key`.
    fn get_key(key: String) -> (r: Option<String>)
        default_ensures
            r is None,
    {
        None
    }

    /// Whether `key` is defined.
    fn has_key(key: String) -> (r: bool)
        default_ensures
            !r,
    {
        false
    }
}

} // verus!
