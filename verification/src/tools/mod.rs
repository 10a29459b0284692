//! The parameters of the assistant's tools.

use vstd::prelude::*;

verus! {

/// Parameters of `search_config`.
#[derive(Debug)]
pub struct SearchConfigParams {
    /// The search query (e.g. "transparent", "font size", "padding")
    pub query: String,
    /// Optional category filter (e.g. "appearance", "font", "window")
    pub category: Option<String>,
}

/// Parameters of `get_option`.
#[derive(Debug)]
pub struct GetOptionParams {
    /// The exact option name (e.g. "background-opacity", "font-size")
    pub name: String,
}

/// Parameters of `read_config`.
#[derive(Debug)]
pub struct ReadConfigParams {
    /// Specific option to read. If omitted, returns all set options.
    pub option: Option<String>,
}

/// Parameters of `write_config`.
#[derive(Debug)]
pub struct WriteConfigParams {
    /// The option name to set (e.g. "font-size")
    pub option: String,
    /// The value to set (e.g. "14")
    pub value: String,
}

/// Parameters of `remove_config`.
#[derive(Debug)]
pub struct RemoveConfigParams {
    /// The option name to remove (will be commented out, not deleted)
    pub option: String,
    /// For repeatable options, the one entry to remove; all entries are
    /// removed when omitted.
    pub value: Option<String>,
}

/// Parameters of `validate_config`.
#[derive(Debug)]
pub struct ValidateConfigParams {
    /// Specific option to validate. If omitted, validates the entire config file.
    pub option: Option<String>,
    /// Value to validate against the option's type constraints.
    pub value: Option<String>,
}

} // verus!
