//! Settings: where the day files live, and the patterns that tell start,
//! break and end entries apart.

use crate::codec::Entry;
use vstd::prelude::*;

verus! {

/// The settings, as read from a configuration file or their defaults.
pub struct Config {
    pub storage_dir: String,
    pub start_regex: String,
    pub break_regex: String,
    pub end_regex: String,
    /// The step that new timestamps are rounded to, in nanoseconds.
    pub round_steps: Option<i64>,
}

/// The pattern of a break entry's message unless configured.
pub fn default_break_regex() -> (r: String)
    ensures
        r@ == "(?i)^(?:break|pause)$"@,
{
    String::from_str("(?i)^(?:break|pause)$")
}

/// The pattern of a start entry's message unless configured.
pub fn default_start_regex() -> (r: String)
    ensures
        r@ == "(?i)^start$"@,
{
    String::from_str("(?i)^start$")
}

/// The pattern of an end entry's message unless configured.
pub fn default_end_regex() -> (r: String)
    ensures
        r@ == "(?i)^end$"@,
{
    String::from_str("(?i)^end$")
}

/// Whether `pattern` matches somewhere in `text`; `None` where the pattern
/// is not a regular expression.
pub uninterp spec fn regex_match(pattern: Seq<char>, text: Seq<char>) -> Option<bool>;

/// Relies on the regex crate: `Regex::new` compiles the pattern, failing on
/// an invalid one, and `is_match` tells whether it matches anywhere in the
/// text; both depend on pattern and text alone.
#[verifier::external_body]
pub(crate) fn pattern_matches(pattern: &str, text: &str) -> (r: Option<bool>)
    ensures
        r == regex_match(pattern@, text@),
{
    match regex::Regex::new(pattern) {
        Ok(rx) => Some(rx.is_match(text)),
        Err(_) => None,
    }
}

/// The kinds of configuration file.
#[derive(Clone, Copy, Debug, PartialEq, Eq, Structural)]
pub enum ConfigFormat {
    Yaml,
    Toml,
    Json,
}

/// The format of a configuration file with the extension `ext`.
pub fn config_format(ext: &str) -> (r: Option<ConfigFormat>)
    ensures
        r == if ext@ == "yml"@ || ext@ == "yaml"@ {
            Some(ConfigFormat::Yaml)
        } else if ext@ == "toml"@ {
            Some(ConfigFormat::Toml)
        } else if ext@ == "json"@ {
            Some(ConfigFormat::Json)
        } else {
            None
        },
{
    let e = String::from_str(ext);
    if e == String::from_str("yml") || e == String::from_str("yaml") {
        Some(ConfigFormat::Yaml)
    } else if e == String::from_str("toml") {
        Some(ConfigFormat::Toml)
    } else if e == String::from_str("json") {
        Some(ConfigFormat::Json)
    } else {
        None
    }
}

/// What an entry's message marks.
#[derive(Clone, Copy, Debug, PartialEq, Eq, Structural)]
pub enum MessageKind {
    Start,
    Break,
    End,
    Other,
}

/// The kind of a message: the first of the start, break and end patterns
/// that matches it; `None` where a pattern tried is not a regular expression.
pub open spec fn message_kind(
    start: Seq<char>,
    brk: Seq<char>,
    end: Seq<char>,
    msg: Seq<char>,
) -> Option<MessageKind> {
    match regex_match(start, msg) {
        None => None,
        Some(true) => Some(MessageKind::Start),
        Some(false) => match regex_match(brk, msg) {
            None => None,
            Some(true) => Some(MessageKind::Break),
            Some(false) => match regex_match(end, msg) {
                None => None,
                Some(true) => Some(MessageKind::End),
                Some(false) => Some(MessageKind::Other),
            },
        },
    }
}

impl Entry {
    /// Which of the configured patterns the message matches first.
    pub fn kind(&self, config: &Config) -> (r: Option<MessageKind>)
        ensures
            r == message_kind(config.start_regex@, config.break_regex@, config.end_regex@, self.message@),
    {
        match self.message_matches(config.start_regex.as_str()) {
            None => None,
            Some(true) => Some(MessageKind::Start),
            Some(false) => match self.message_matches(config.break_regex.as_str()) {
                None => None,
                Some(true) => Some(MessageKind::Break),
                Some(false) => match self.message_matches(config.end_regex.as_str()) {
                    None => None,
                    Some(true) => Some(MessageKind::End),
                    Some(false) => Some(MessageKind::Other),
                },
            },
        }
    }

    /// Whether the pattern matches somewhere in the message; `None` where the
    /// pattern is not a regular expression.
    pub fn message_matches(&self, rx: &str) -> (r: Option<bool>)
        ensures
            r == regex_match(rx@, self.message@),
    {
        pattern_matches(rx, self.message.as_str())
    }
}

} // verus!
