//! Session configuration: the optional config-file options, the
//! command-line overrides, and their resolution into effective settings
//! with the precedence CLI argument > config file > hardcoded default.

use vstd::prelude::*;

use crate::types::AnswerControls;

verus! {

/// The `[drill]` table of the collection's config file; every option is
/// optional.
pub struct DrillConfig {
    pub card_limit: Option<usize>,
    pub new_card_limit: Option<usize>,
    pub host: Option<String>,
    pub port: Option<u16>,
    pub open_browser: Option<bool>,
    pub answer_controls: Option<String>,
    pub bury_siblings: Option<bool>,
}

/// The collection's config file.
pub struct Config {
    pub drill: DrillConfig,
}

impl Default for DrillConfig {
    /// An absent config file: every option unset.
    fn default() -> (c: DrillConfig)
        ensures
            c.card_limit is None,
            c.new_card_limit is None,
            c.host is None,
            c.port is None,
            c.open_browser is None,
            c.answer_controls is None,
            c.bury_siblings is None,
    {
        DrillConfig {
            card_limit: None,
            new_card_limit: None,
            host: None,
            port: None,
            open_browser: None,
            answer_controls: None,
            bury_siblings: None,
        }
    }
}

impl Default for Config {
    /// An absent config file.
    fn default() -> (c: Config)
        ensures
            c.drill.card_limit is None,
            c.drill.new_card_limit is None,
            c.drill.host is None,
            c.drill.port is None,
            c.drill.open_browser is None,
            c.drill.answer_controls is None,
            c.drill.bury_siblings is None,
    {
        Config { drill: DrillConfig::default() }
    }
}

/// The command-line overrides of the drill subcommand.
pub struct CliOverrides {
    pub card_limit: Option<usize>,
    pub new_card_limit: Option<usize>,
    pub host: Option<String>,
    pub port: Option<u16>,
    pub open_browser: Option<bool>,
    pub answer_controls: Option<AnswerControls>,
    pub bury_siblings: Option<bool>,
}

/// The effective settings of a drill invocation.
pub struct DrillSettings {
    pub card_limit: Option<usize>,
    pub new_card_limit: Option<usize>,
    pub host: String,
    pub port: u16,
    pub open_browser: bool,
    pub answer_controls: AnswerControls,
    pub bury_siblings: bool,
    pub shuffle: bool,
}

/// The answer controls a config-file string names, if any.
pub open spec fn spec_parse_answer_controls(s: Seq<char>) -> Option<AnswerControls> {
    if s == "full"@ {
        Some(AnswerControls::Full)
    } else if s == "binary"@ {
        Some(AnswerControls::Binary)
    } else {
        None
    }
}

/// Parses a config-file answer-controls string: `full` or `binary`;
/// anything else is unrecognized.
pub fn parse_answer_controls(s: &String) -> (r: Option<AnswerControls>)
    ensures
        r == spec_parse_answer_controls(s@),
{
    let full: String = "full".to_owned();
    if *s == full {
        return Some(AnswerControls::Full);
    }
    let binary: String = "binary".to_owned();
    if *s == binary {
        return Some(AnswerControls::Binary);
    }
    None
}

/// The effective answer controls: the CLI value, else the recognized
/// config-file string, else `Full`.
pub open spec fn spec_resolved_controls(cli: Option<AnswerControls>, file: Option<String>) -> AnswerControls {
    match cli {
        Some(a) => a,
        None => match file {
            Some(s) => match spec_parse_answer_controls(s@) {
                Some(a) => a,
                None => AnswerControls::Full,
            },
            None => AnswerControls::Full,
        },
    }
}

/// Resolves the effective settings: each option is taken from the command
/// line when given, else from the config file, else from the hardcoded
/// default (host `127.0.0.1`, port 8000, browser opened, siblings buried,
/// `Full` controls); the queue of an interactive session is shuffled.
pub fn resolve_settings(cli: &CliOverrides, file: &Config) -> (s: DrillSettings)
    ensures
        s.card_limit == if cli.card_limit is Some {
            cli.card_limit
        } else {
            file.drill.card_limit
        },
        s.new_card_limit == if cli.new_card_limit is Some {
            cli.new_card_limit
        } else {
            file.drill.new_card_limit
        },
        s.host@ == match cli.host {
            Some(h) => h@,
            None => match file.drill.host {
                Some(h) => h@,
                None => "127.0.0.1"@,
            },
        },
        s.port == match cli.port {
            Some(p) => p,
            None => match file.drill.port {
                Some(p) => p,
                None => 8000u16,
            },
        },
        s.open_browser == match cli.open_browser {
            Some(b) => b,
            None => match file.drill.open_browser {
                Some(b) => b,
                None => true,
            },
        },
        s.bury_siblings == match cli.bury_siblings {
            Some(b) => b,
            None => match file.drill.bury_siblings {
                Some(b) => b,
                None => true,
            },
        },
        s.answer_controls == spec_resolved_controls(cli.answer_controls, file.drill.answer_controls),
        s.shuffle == true,
{
    let card_limit: Option<usize> = match cli.card_limit {
        Some(n) => Some(n),
        None => file.drill.card_limit,
    };
    let new_card_limit: Option<usize> = match cli.new_card_limit {
        Some(n) => Some(n),
        None => file.drill.new_card_limit,
    };
    let host: String = match &cli.host {
        Some(h) => h.clone(),
        None => match &file.drill.host {
            Some(h) => h.clone(),
            None => "127.0.0.1".to_owned(),
        },
    };
    let port: u16 = match cli.port {
        Some(p) => p,
        None => match file.drill.port {
            Some(p) => p,
            None => 8000,
        },
    };
    let open_browser: bool = match cli.open_browser {
        Some(b) => b,
        None => match file.drill.open_browser {
            Some(b) => b,
            None => true,
        },
    };
    let bury_siblings: bool = match cli.bury_siblings {
        Some(b) => b,
        None => match file.drill.bury_siblings {
            Some(b) => b,
            None => true,
        },
    };
    let answer_controls: AnswerControls = match cli.answer_controls {
        Some(a) => a,
        None => match &file.drill.answer_controls {
            Some(s) => match parse_answer_controls(s) {
                Some(a) => a,
                None => AnswerControls::Full,
            },
            None => AnswerControls::Full,
        },
    };
    DrillSettings {
        card_limit,
        new_card_limit,
        host,
        port,
        open_browser,
        answer_controls,
        bury_siblings,
        shuffle: true,
    }
}

} // verus!
