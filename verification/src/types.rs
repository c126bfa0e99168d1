use vstd::prelude::*;

use vstd::hash_map::StringHashMap;

verus! {

/// Configuration: a map from option names to their values.
pub struct Config {
    entries: StringHashMap<String>,
}

impl View for Config {
    type V = Map<Seq<char>, Seq<char>>;

    closed spec fn view(&self) -> Map<Seq<char>, Seq<char>> {
        self.entries@.map_values(|v: String| v@)
    }
}

impl Config {
    /// An empty configuration.
    pub fn new() -> (r: Config)
        ensures
            r@ == Map::<Seq<char>, Seq<char>>::empty(),
    {
        let r = Config { entries: StringHashMap::new() };
        assert(r@ =~= Map::<Seq<char>, Seq<char>>::empty());
        r
    }

    /// Sets option `key` to `value`, replacing any earlier value.
    pub fn insert(&mut self, key: String, value: String)
        ensures
            final(self)@ == old(self)@.insert(key@, value@),
    {
        self.entries.insert(key, value);
        assert(self@ =~= old(self)@.insert(key@, value@));
    }

    /// Whether option `key` is set.
    pub fn contains_key(&self, key: &str) -> (r: bool)
        ensures
            r == self@.contains_key(key@),
    {
        self.entries.contains_key(key)
    }

    /// The value of option `key`, if it is set.
    pub fn get(&self, key: &str) -> (r: Option<String>)
        ensures
            match r {
                Some(v) => self@.contains_key(key@) && v@ == self@[key@],
                None => !self@.contains_key(key@),
            },
    {
        match self.entries.get(key) {
            Some(v) => Some(v.clone()),
            None => None,
        }
    }

    /// The number of options set.
    pub fn len(&self) -> (r: usize)
        ensures
            r == self@.len(),
    {
        broadcast use vstd::hash_map::group_hash_map_axioms;

        assert(self@.dom() =~= self.entries@.dom());
        self.entries.len()
    }
}

/// The outcome of reading a configuration: the configuration, or a message
/// that says which line is wrong and why.
pub type ConfigResult = Result<Config, String>;

} // verus!

verus! {

/// A protocol command: its name, and its parameter if it has one.
pub type Command = (String, Option<String>);

/// The text of an optional string.
pub open spec fn opt_text(o: Option<String>) -> Option<Seq<char>> {
    match o {
        Some(s) => Some(s@),
        None => None,
    }
}

/// A command in terms of character sequences.
pub open spec fn command_view(c: Command) -> (Seq<char>, Option<Seq<char>>) {
    (c.0@, opt_text(c.1))
}

/// A configuration result in terms of maps and character sequences.
pub open spec fn config_result_view(r: ConfigResult) -> Result<Map<Seq<char>, Seq<char>>, Seq<char>> {
    match r {
        Ok(c) => Ok(c@),
        Err(msg) => Err(msg@),
    }
}

} // verus!
