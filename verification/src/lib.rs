//! Instrumentation: lets an application expose internal metrics that a client
//! can query over a socket.
use vstd::prelude::*;

pub mod app_instrumentation;
pub mod configparse;
pub mod consts;
pub mod instrumentation;
pub mod laws;

pub mod stream_utils;
pub mod tcp;
pub mod text;
pub mod types;
pub mod unix;
pub mod utils;

use crate::configparse::{
    parse_config_lines, read_env_var_config, spec_parse_config_lines, split_on, texts,
};
use crate::text::same_text;
use crate::types::{config_result_view, opt_text, Command, Config, ConfigResult};
use crate::utils::{dotsplit, spec_dotsplit};

verus! {

/// Where the configuration is looked for: the file named by the environment
/// variable when it is set, else the default configuration file.
pub fn config_path(env_value: &Option<String>) -> (r: String)
    ensures
        match env_value {
            Some(v) => r@ == v@,
            None => r@ == "instrumentation.conf"@,
        },
{
    match env_value {
        Some(v) => v.clone(),
        None => "instrumentation.conf".to_owned(),
    }
}

/// What `load_config` gives: the lines of the file when it exists; else the
/// environment variable's value read as `;`-separated lines; else no options.
pub open spec fn spec_load_config(
    env_value: Option<Seq<char>>,
    file_lines: Option<Seq<Seq<char>>>,
) -> Result<Map<Seq<char>, Seq<char>>, Seq<char>> {
    match file_lines {
        Some(lines) => spec_parse_config_lines(lines),
        None => match env_value {
            Some(v) => spec_parse_config_lines(split_on(v, ';')),
            None => Ok(Map::empty()),
        },
    }
}

/// Obtains the configuration, trying in order: the file that `config_path`
/// names, whose lines are `file_lines` when it exists; the environment
/// variable's value, which holds the configuration itself; and, when neither
/// is present, no options at all.
pub fn get_config(env_value: Option<String>, file_lines: Option<Vec<String>>) -> (r: ConfigResult)
    ensures
        config_result_view(r) == spec_load_config(
            opt_text(env_value),
            match file_lines {
                Some(ls) => Some(texts(ls@)),
                None => None,
            },
        ),
{
    match file_lines {
        Some(lines) => parse_config_lines(lines),
        None => match env_value {
            Some(v) => parse_config_lines(read_env_var_config(v)),
            None => Ok(Config::new()),
        },
    }
}

} // verus!

verus! {

/// What answers a request: the instrument callback to run, or an answer that
/// needs none.
#[derive(Debug, PartialEq, Eq, Clone)]
pub enum RequestPlan {
    /// Answer `null`.
    Null,
    /// Answer the list of the names of all registered instruments.
    ListInstruments,
    /// Answer what `instrument` gives for `key`.
    GetKey { instrument: String, key: String },
    /// Answer whether `instrument` defines `key`.
    HasKey { instrument: String, key: String },
    /// Answer the subkeys that `instrument` lists under `root`.
    GetSubkeys { instrument: String, root: Option<String> },
}

/// A request plan in terms of character sequences.
pub enum PlanView {
    Null,
    ListInstruments,
    GetKey(Seq<char>, Seq<char>),
    HasKey(Seq<char>, Seq<char>),
    GetSubkeys(Seq<char>, Option<Seq<char>>),
}

impl View for RequestPlan {
    type V = PlanView;

    open spec fn view(&self) -> PlanView {
        match self {
            RequestPlan::Null => PlanView::Null,
            RequestPlan::ListInstruments => PlanView::ListInstruments,
            RequestPlan::GetKey { instrument, key } => PlanView::GetKey(instrument@, key@),
            RequestPlan::HasKey { instrument, key } => PlanView::HasKey(instrument@, key@),
            RequestPlan::GetSubkeys { instrument, root } => PlanView::GetSubkeys(
                instrument@,
                opt_text(*root),
            ),
        }
    }
}

/// How a request is answered, given the names of the registered instruments.
/// A parameter `inst.rest` names instrument `inst` and, after the first `.`,
/// its key.
pub open spec fn spec_handle_request(
    cmd: Seq<char>,
    param: Option<Seq<char>>,
    names: Seq<Seq<char>>,
) -> PlanView {
    if cmd == "GET_KEY"@ || cmd == "HAS_KEY"@ {
        match param {
            None => PlanView::Null,
            Some(p) => {
                let (first, rest) = spec_dotsplit(p);
                match rest {
                    None => PlanView::Null,
                    Some(key) => {
                        if !names.contains(first) {
                            PlanView::Null
                        } else if cmd == "GET_KEY"@ {
                            PlanView::GetKey(first, key)
                        } else {
                            PlanView::HasKey(first, key)
                        }
                    },
                }
            },
        }
    } else if cmd == "GET_SUBKEYS"@ {
        match param {
            None => PlanView::ListInstruments,
            Some(p) => {
                let (first, rest) = spec_dotsplit(p);
                if names.contains(first) {
                    PlanView::GetSubkeys(first, rest)
                } else {
                    PlanView::Null
                }
            },
        }
    } else {
        PlanView::Null
    }
}

/// Whether `name` is among `names`.
fn is_registered(names: &Vec<String>, name: &String) -> (r: bool)
    ensures
        r == texts(names@).contains(name@),
{
    let mut i: usize = 0;
    while i < names.len()
        invariant
            i <= names.len(),
            forall|j: int| 0 <= j < i ==> names@[j]@ != name@,
        decreases names.len() - i,
    {
        if names[i] == *name {
            assert(texts(names@)[i as int] == name@);
            return true;
        }
        i = i + 1;
    }
    assert forall|j: int| 0 <= j < texts(names@).len() implies texts(names@)[j] != name@ by {
        assert(texts(names@)[j] == names@[j]@);
    }
    false
}

/// Decides how to answer a command, given the names of the registered instruments.
pub fn handle_request(command: Command, instruments: &Vec<String>) -> (r: RequestPlan)
    ensures
        r@ == spec_handle_request(command.0@, opt_text(command.1), texts(instruments@)),
{
    let (cmd, param) = command;
    let c = cmd.as_str();
    let is_get = same_text(c, "GET_KEY");
    let is_has = same_text(c, "HAS_KEY");
    if is_get || is_has {
        match param {
            None => RequestPlan::Null,
            Some(p) => {
                let (first, rest) = dotsplit(p);
                match rest {
                    None => RequestPlan::Null,
                    Some(key) => {
                        if !is_registered(instruments, &first) {
                            RequestPlan::Null
                        } else if is_get {
                            RequestPlan::GetKey { instrument: first, key }
                        } else {
                            RequestPlan::HasKey { instrument: first, key }
                        }
                    },
                }
            },
        }
    } else if same_text(c, "GET_SUBKEYS") {
        match param {
            None => RequestPlan::ListInstruments,
            Some(p) => {
                let (first, rest) = dotsplit(p);
                if is_registered(instruments, &first) {
                    RequestPlan::GetSubkeys { instrument: first, root: rest }
                } else {
                    RequestPlan::Null
                }
            },
        }
    } else {
        RequestPlan::Null
    }
}

} // verus!
