//! Settings resolution: CLI argument over config file over hardcoded
//! default, and the answer-controls strings.

use hashcards::config::{
    parse_answer_controls, resolve_settings, CliOverrides, Config, DrillConfig,
};
use hashcards::types::AnswerControls;

fn no_cli() -> CliOverrides {
    CliOverrides {
        card_limit: None,
        new_card_limit: None,
        host: None,
        port: None,
        open_browser: None,
        answer_controls: None,
        bury_siblings: None,
    }
}

#[test]
fn defaults_apply_when_nothing_is_set() {
    let s = resolve_settings(&no_cli(), &Config::default());
    assert_eq!(s.host, "127.0.0.1");
    assert_eq!(s.port, 8000);
    assert_eq!(s.card_limit, None);
    assert_eq!(s.new_card_limit, None);
    assert!(s.open_browser);
    assert!(s.bury_siblings);
    assert_eq!(s.answer_controls, AnswerControls::Full);
    assert!(s.shuffle);
}

#[test]
fn config_file_overrides_defaults() {
    let file = Config {
        drill: DrillConfig {
            card_limit: Some(30),
            new_card_limit: Some(5),
            host: Some("0.0.0.0".to_owned()),
            port: Some(9999),
            open_browser: Some(false),
            answer_controls: Some("binary".to_owned()),
            bury_siblings: Some(false),
        },
    };
    let s = resolve_settings(&no_cli(), &file);
    assert_eq!(s.card_limit, Some(30));
    assert_eq!(s.new_card_limit, Some(5));
    assert_eq!(s.host, "0.0.0.0");
    assert_eq!(s.port, 9999);
    assert!(!s.open_browser);
    assert!(!s.bury_siblings);
    assert_eq!(s.answer_controls, AnswerControls::Binary);
}

#[test]
fn cli_arguments_override_the_config_file() {
    let file = Config {
        drill: DrillConfig {
            card_limit: Some(30),
            new_card_limit: Some(5),
            host: Some("0.0.0.0".to_owned()),
            port: Some(9999),
            open_browser: Some(false),
            answer_controls: Some("binary".to_owned()),
            bury_siblings: Some(false),
        },
    };
    let cli = CliOverrides {
        card_limit: Some(7),
        new_card_limit: Some(2),
        host: Some("localhost".to_owned()),
        port: Some(8080),
        open_browser: Some(true),
        answer_controls: Some(AnswerControls::Full),
        bury_siblings: Some(true),
    };
    let s = resolve_settings(&cli, &file);
    assert_eq!(s.card_limit, Some(7));
    assert_eq!(s.new_card_limit, Some(2));
    assert_eq!(s.host, "localhost");
    assert_eq!(s.port, 8080);
    assert!(s.open_browser);
    assert!(s.bury_siblings);
    assert_eq!(s.answer_controls, AnswerControls::Full);
}

#[test]
fn answer_controls_strings_parse_exactly() {
    assert_eq!(parse_answer_controls(&"full".to_owned()), Some(AnswerControls::Full));
    assert_eq!(parse_answer_controls(&"binary".to_owned()), Some(AnswerControls::Binary));
    assert_eq!(parse_answer_controls(&"FULL".to_owned()), None);
    assert_eq!(parse_answer_controls(&"".to_owned()), None);
}

#[test]
fn unrecognized_answer_controls_fall_back_to_full() {
    let file = Config {
        drill: DrillConfig {
            answer_controls: Some("both".to_owned()),
            ..DrillConfig::default()
        },
    };
    let s = resolve_settings(&no_cli(), &file);
    assert_eq!(s.answer_controls, AnswerControls::Full);
}
