//! Editable startup settings. The configured theme slug is kept verbatim;
//! resolution against the command line happens in
//! [`crate::theme::startup_theme`].
use vstd::prelude::*;

use crate::strings::{owned, push_str};

verus! {

/// Settings recognized in `config.toml`.
#[derive(Clone, Debug, PartialEq, Eq)]
pub struct Settings {
    /// Configured theme slug such as `"paper"`, when one is present.
    pub theme: Option<String>,
}

impl Default for Settings {
    fn default() -> (s: Self)
        ensures
            s.theme is None,
    {
        Settings { theme: None }
    }
}

impl Settings {
    /// The settings a parsed configuration file yields: its theme slug
    /// when the file parsed, the defaults when it was missing, unreadable
    /// or malformed.
    pub fn from_parsed(parsed: Option<Option<String>>) -> (s: Settings)
        ensures
            s.theme == match parsed {
                Some(theme) => theme,
                None => None::<String>,
            },
    {
        match parsed {
            Some(theme) => Settings { theme },
            None => Settings { theme: None },
        }
    }
}

/// The configuration file inside a configuration root directory:
/// `termleaf/config.toml` joined below it with one separator.
pub open spec fn spec_path_under(home: Seq<char>) -> Seq<char> {
    if home.len() == 0 {
        "termleaf/config.toml"@
    } else if home.last() == '/' {
        home + "termleaf/config.toml"@
    } else {
        home + "/termleaf/config.toml"@
    }
}

/// The configuration file inside a configuration root directory.
pub fn path_under(config_home: &str) -> (p: String)
    ensures
        p@ == spec_path_under(config_home@),
{
    let chars = crate::paths::chars_of(config_home);
    let mut p = owned(config_home);
    if chars.len() > 0 && chars[chars.len() - 1] != '/' {
        push_str(&mut p, "/");
    }
    push_str(&mut p, "termleaf/config.toml");
    proof {
        reveal_strlit("/");
        reveal_strlit("termleaf/config.toml");
        reveal_strlit("/termleaf/config.toml");
        assert("/"@ + "termleaf/config.toml"@ =~= "/termleaf/config.toml"@);
    }
    p
}

} // verus!
