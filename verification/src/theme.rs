//! Named color themes and the precedence that picks one at startup.
use vstd::prelude::*;

verus! {

/// The built-in color themes, each with a stable configuration slug.
#[derive(Clone, Copy, Debug, PartialEq, Eq, Structural, Hash)]
pub enum ThemeName {
    Dark,
    Light,
    HighContrast,
    Monochrome,
    Paper,
}

impl Default for ThemeName {
    fn default() -> (t: Self)
        ensures
            t == ThemeName::Paper,
    {
        ThemeName::Paper
    }
}

/// The configuration slug of a theme.
pub open spec fn spec_slug(t: ThemeName) -> Seq<char> {
    match t {
        ThemeName::Dark => "dark"@,
        ThemeName::Light => "light"@,
        ThemeName::HighContrast => "high-contrast"@,
        ThemeName::Monochrome => "monochrome"@,
        ThemeName::Paper => "paper"@,
    }
}

/// The theme a slug names, if any.
pub open spec fn spec_parse(slug: Seq<char>) -> Option<ThemeName> {
    if slug == "dark"@ {
        Some(ThemeName::Dark)
    } else if slug == "light"@ {
        Some(ThemeName::Light)
    } else if slug == "high-contrast"@ {
        Some(ThemeName::HighContrast)
    } else if slug == "monochrome"@ {
        Some(ThemeName::Monochrome)
    } else if slug == "paper"@ {
        Some(ThemeName::Paper)
    } else {
        None
    }
}

impl ThemeName {
    /// The stable configuration slug.
    pub fn slug(self) -> (s: &'static str)
        ensures
            s@ == spec_slug(self),
    {
        match self {
            ThemeName::Dark => "dark",
            ThemeName::Light => "light",
            ThemeName::HighContrast => "high-contrast",
            ThemeName::Monochrome => "monochrome",
            ThemeName::Paper => "paper",
        }
    }

    /// The theme named by `slug`; slugs are exact and case-sensitive.
    pub fn parse(slug: &str) -> (t: Option<ThemeName>)
        ensures
            t == spec_parse(slug@),
    {
        let s = slug.to_owned();
        if s == "dark".to_owned() {
            Some(ThemeName::Dark)
        } else if s == "light".to_owned() {
            Some(ThemeName::Light)
        } else if s == "high-contrast".to_owned() {
            Some(ThemeName::HighContrast)
        } else if s == "monochrome".to_owned() {
            Some(ThemeName::Monochrome)
        } else if s == "paper".to_owned() {
            Some(ThemeName::Paper)
        } else {
            None
        }
    }
}

/// Every theme's slug parses back to that theme.
pub proof fn lemma_slug_round_trip(t: ThemeName)
    ensures
        spec_parse(spec_slug(t)) == Some(t),
{
    reveal_strlit("dark");
    reveal_strlit("light");
    reveal_strlit("high-contrast");
    reveal_strlit("monochrome");
    reveal_strlit("paper");
    assert("dark"@.len() != "light"@.len());
    assert("dark"@.len() != "high-contrast"@.len());
    assert("dark"@.len() != "monochrome"@.len());
    assert("light"@.len() != "high-contrast"@.len());
    assert("light"@.len() != "monochrome"@.len());
    assert("high-contrast"@.len() != "monochrome"@.len());
    assert("paper"@.len() != "high-contrast"@.len());
    assert("paper"@.len() != "monochrome"@.len());
    assert("paper"@.len() != "dark"@.len());
    assert("paper"@[0] != "light"@[0]);
}

/// The theme startup uses: the first recognized slug among the explicit
/// option and then the configured one, else the default.
pub open spec fn spec_startup_theme(explicit: Option<Seq<char>>, configured: Option<Seq<char>>) -> ThemeName {
    match explicit {
        Some(e) if spec_parse(e) is Some => spec_parse(e)->0,
        _ => match configured {
            Some(c) if spec_parse(c) is Some => spec_parse(c)->0,
            _ => ThemeName::Paper,
        },
    }
}

/// Applies configuration precedence: an explicit option beats the
/// configuration file, which beats the built-in default. An unrecognized
/// slug falls through rather than blocking startup.
pub fn startup_theme(explicit: Option<&str>, configured: Option<&str>) -> (t: ThemeName)
    ensures
        t == spec_startup_theme(
            match explicit {
                Some(e) => Some(e@),
                None => None,
            },
            match configured {
                Some(c) => Some(c@),
                None => None,
            },
        ),
{
    if let Some(e) = explicit {
        if let Some(t) = ThemeName::parse(e) {
            return t;
        }
    }
    if let Some(c) = configured {
        if let Some(t) = ThemeName::parse(c) {
            return t;
        }
    }
    ThemeName::Paper
}

} // verus!
