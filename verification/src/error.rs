//! The failure kinds of the engine.

use vstd::prelude::*;

verus! {

/// A call-aborting failure: malformed rule text, a malformed condition
/// class, or an engine invoked before its table or dictionary is attached.
#[derive(Debug, Clone, PartialEq, Eq)]
pub enum RunmunchError {
    /// A record that cannot be read at all.
    Parse(String),
    /// A structurally inconsistent affix record, including an unclosed
    /// bracket class in a condition.
    InvalidAffix(String),
    /// A structurally inconsistent dictionary, such as a bad word count.
    InvalidDictionary(String),
    /// Expansion was requested before a rule table was attached.
    NoAffixFile,
    /// Base-word recovery was requested before a dictionary was attached.
    NoDictionary,
    /// A flag token that cannot be used.
    InvalidFlag(String),
}

impl RunmunchError {
    /// A short description of the failure, for callers that print errors.
    pub fn describe(&self) -> (r: String)
        ensures
            r@.len() > 0,
    {
        let msg: &str = match self {
            RunmunchError::Parse(_) => "parse error",
            RunmunchError::InvalidAffix(_) => "invalid affix format",
            RunmunchError::InvalidDictionary(_) => "invalid dictionary format",
            RunmunchError::NoAffixFile => "no affix file loaded",
            RunmunchError::NoDictionary => "no dictionary loaded",
            RunmunchError::InvalidFlag(_) => "invalid flag",
        };
        proof {
            reveal_strlit("parse error");
            reveal_strlit("invalid affix format");
            reveal_strlit("invalid dictionary format");
            reveal_strlit("no affix file loaded");
            reveal_strlit("no dictionary loaded");
            reveal_strlit("invalid flag");
        }
        let mut out = msg.to_owned();
        match self {
            RunmunchError::Parse(d) => {
                out.append(": ");
                out.append(d.as_str());
            },
            RunmunchError::InvalidAffix(d) => {
                out.append(": ");
                out.append(d.as_str());
            },
            RunmunchError::InvalidDictionary(d) => {
                out.append(": ");
                out.append(d.as_str());
            },
            RunmunchError::InvalidFlag(d) => {
                out.append(": ");
                out.append(d.as_str());
            },
            _ => {},
        }
        out
    }
}

} // verus!
