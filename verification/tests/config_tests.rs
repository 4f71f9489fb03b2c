use sonos_cli::config::{CommandOutcome, Config, Subcommands};
use sonos_cli::errors::Error;
use sonos_cli::json::{parse_value, render_value, JsonValue};

fn run_ok(cmd: Subcommands, config: &Config) -> CommandOutcome {
    cmd.run(config).expect("command should succeed")
}

#[test]
fn default_record_has_one_second_timeout_and_no_name() {
    let c = Config::default();
    assert_eq!(c.timeout, 1);
    assert!(c.default.is_none());
}

#[test]
fn canonical_text_of_default_record() {
    let c = Config::default();
    assert_eq!(c.to_json(), "{\n  \"timeout\": 1,\n  \"default\": null\n}");
}

#[test]
fn canonical_text_with_default_name() {
    let c = Config { timeout: 30, default: Some("Kitchen".to_string()) };
    assert_eq!(c.to_json(), "{\n  \"timeout\": 30,\n  \"default\": \"Kitchen\"\n}");
}

#[test]
fn load_then_save_is_a_byte_level_no_op() {
    let texts = [
        "{\n  \"timeout\": 1,\n  \"default\": null\n}",
        "{\n  \"timeout\": 42,\n  \"default\": \"Living Room\"\n}",
        "{\n  \"timeout\": 0,\n  \"default\": null\n}",
    ];
    for text in texts {
        let c = Config::from_json(text).expect("canonical text should parse");
        assert_eq!(c.to_json(), text);
    }
}

#[test]
fn render_then_parse_restores_the_record() {
    let c = Config { timeout: 7, default: Some("Den".to_string()) };
    let c2 = Config::from_json(&c.to_json()).unwrap();
    assert_eq!(c2.timeout, 7);
    assert_eq!(c2.default.as_deref(), Some("Den"));
}

#[test]
fn malformed_or_off_shape_text_is_rejected() {
    for text in [
        "",
        "{}",
        "{\"default\": null}",
        "{\n  \"timeout\": 007,\n  \"default\": null\n}",
        "{\n  \"timeout\": -1,\n  \"default\": null\n}",
        "{\n  \"timeout\": 99999999999999999999,\n  \"default\": null\n}",
        "{\"timeout\": 1,\"default\": null,\"extra\": 1}",
        "{\"timeout\": 1,\"timeout\": 2}",
        "{\"timeout\": true}",
        "{\"timeout\": 1,\"default\": 5}",
        "{\"timeout\": 1,\"default\": \"\\ud800\"}",
        "{\"timeout\": 1,\"default\": \"\\u00g1\"}",
        "{\"timeout\": 1,\"default\": \"\\ud83d\"}",
        "{\"timeout\": 1,\"default\": \"open",
        "{\"timeout\": 1",
    ] {
        assert!(
            matches!(Config::from_json(text), Err(Error::InvalidConfig)),
            "should reject: {:?}",
            text
        );
    }
}

#[test]
fn load_accepts_the_general_two_field_shape() {
    let c = Config::from_json("{\"timeout\":5,\"default\":null}").unwrap();
    assert_eq!(c.timeout, 5);
    assert!(c.default.is_none());

    let c = Config::from_json("  { \"default\" : \"Den\" , \"timeout\" : 2 }  ").unwrap();
    assert_eq!(c.timeout, 2);
    assert_eq!(c.default.as_deref(), Some("Den"));

    let c = Config::from_json("{\"timeout\": 3}").unwrap();
    assert_eq!(c.timeout, 3);
    assert!(c.default.is_none());

    let c = Config::from_json("\t{\n\"timeout\":0 ,\n\"default\":\"A B\"}\r\n").unwrap();
    assert_eq!(c.timeout, 0);
    assert_eq!(c.default.as_deref(), Some("A B"));
}

#[test]
fn load_decodes_string_escapes_and_save_writes_them_back() {
    let c = Config::from_json("{\"timeout\":1,\"default\":\"a\\\"b\\\\c\\nd\"}").unwrap();
    assert_eq!(c.default.as_deref(), Some("a\"b\\c\nd"));
    assert_eq!(
        c.to_json(),
        "{\n  \"timeout\": 1,\n  \"default\": \"a\\\"b\\\\c\\nd\"\n}"
    );
    let c2 = Config::from_json(&c.to_json()).unwrap();
    assert_eq!(c2.default, c.default);
}

#[test]
fn load_decodes_hex_escapes_including_surrogate_pairs() {
    let c = Config::from_json("{\"timeout\":1,\"default\":\"a\\u0041b\"}").unwrap();
    assert_eq!(c.default.as_deref(), Some("aAb"));
    let c = Config::from_json("{\"timeout\":1,\"default\":\"K\\u00fcche\"}").unwrap();
    assert_eq!(c.default.as_deref(), Some("K\u{fc}che"));
    let c = Config::from_json("{\"timeout\":1,\"default\":\"\\ud83d\\ude00\"}").unwrap();
    assert_eq!(c.default.as_deref(), Some("\u{1f600}"));
}

#[test]
fn save_writes_hex_escapes_for_unnamed_controls() {
    let c = Config { timeout: 1, default: Some("a\u{1}b\u{1f}".to_string()) };
    assert_eq!(c.to_json(), "{\n  \"timeout\": 1,\n  \"default\": \"a\\u0001b\\u001f\"\n}");
    let c2 = Config::from_json(&c.to_json()).unwrap();
    assert_eq!(c2.default, c.default);
}

#[test]
fn set_decodes_hex_escapes() {
    let c = Config::default();
    let outcome = Subcommands::Assign {
        key: "default".to_string(),
        value: "\"\\u0041\\ud83d\\ude00\"".to_string(),
    }
    .run(&c)
    .unwrap();
    assert_eq!(outcome.updated.unwrap().default.as_deref(), Some("A\u{1f600}"));
}

#[test]
fn list_renders_two_lines_in_stable_field_order() {
    let outcome = run_ok(Subcommands::List, &Config::default());
    assert!(outcome.updated.is_none());
    assert_eq!(outcome.lines.len(), 2);
    assert_eq!(outcome.lines[0], "default: null");
    assert_eq!(outcome.lines[1], "timeout: 1");
}

#[test]
fn get_renders_the_addressed_field() {
    let c = Config { timeout: 5, default: Some("Kitchen".to_string()) };
    let outcome = run_ok(Subcommands::Get { key: "timeout".to_string() }, &c);
    assert_eq!(outcome.lines, vec!["timeout: 5"]);
    let outcome = run_ok(Subcommands::Get { key: "default".to_string() }, &c);
    assert_eq!(outcome.lines, vec!["default: \"Kitchen\""]);
}

#[test]
fn get_of_an_unknown_key_renders_null() {
    let outcome = run_ok(Subcommands::Get { key: "bogus".to_string() }, &Config::default());
    assert_eq!(outcome.lines, vec!["bogus: null"]);
}

#[test]
fn set_then_get_renders_the_json_number() {
    let c = Config::default();
    let outcome = run_ok(
        Subcommands::Assign { key: "timeout".to_string(), value: "30".to_string() },
        &c,
    );
    assert!(outcome.lines.is_empty());
    let c2 = outcome.updated.expect("set must update the record");
    assert_eq!(c2.timeout, 30);
    let outcome = run_ok(Subcommands::Get { key: "timeout".to_string() }, &c2);
    assert_eq!(outcome.lines, vec!["timeout: 30"]);
}

#[test]
fn set_default_to_a_string_and_back_to_null() {
    let c = Config::default();
    let outcome = run_ok(
        Subcommands::Assign { key: "default".to_string(), value: "\"Kitchen\"".to_string() },
        &c,
    );
    let c2 = outcome.updated.unwrap();
    assert_eq!(c2.default.as_deref(), Some("Kitchen"));
    assert_eq!(c2.timeout, 1);
    let outcome = run_ok(
        Subcommands::Assign { key: "default".to_string(), value: "null".to_string() },
        &c2,
    );
    let c3 = outcome.updated.unwrap();
    assert!(c3.default.is_none());
}

#[test]
fn set_preserves_the_other_field() {
    let c = Config { timeout: 9, default: Some("Den".to_string()) };
    let outcome = run_ok(
        Subcommands::Assign { key: "timeout".to_string(), value: "12".to_string() },
        &c,
    );
    let c2 = outcome.updated.unwrap();
    assert_eq!(c2.timeout, 12);
    assert_eq!(c2.default.as_deref(), Some("Den"));
}

#[test]
fn set_accepts_surrounding_whitespace_and_escapes() {
    let c = Config::default();
    let outcome = Subcommands::Assign { key: "timeout".to_string(), value: "  30\t".to_string() }
        .run(&c)
        .unwrap();
    assert_eq!(outcome.updated.unwrap().timeout, 30);
    let outcome = Subcommands::Assign {
        key: "default".to_string(),
        value: " \"a\\\"b\" ".to_string(),
    }
    .run(&c)
    .unwrap();
    assert_eq!(outcome.updated.unwrap().default.as_deref(), Some("a\"b"));
}

#[test]
fn set_with_invalid_json_is_a_syntax_error() {
    for raw in ["nul", "tru", "\"open", "3x", "030", ""] {
        let r = Subcommands::Assign { key: "timeout".to_string(), value: raw.to_string() }
            .run(&Config::default());
        assert!(matches!(r, Err(Error::JsonSyntax)), "should be syntax error: {:?}", raw);
    }
}

#[test]
fn set_with_the_wrong_value_type_leaves_the_record_invalid() {
    let cases = [
        ("timeout", "\"abc\""),
        ("timeout", "null"),
        ("timeout", "true"),
        ("default", "5"),
        ("default", "false"),
    ];
    for (key, raw) in cases {
        let r = Subcommands::Assign { key: key.to_string(), value: raw.to_string() }
            .run(&Config::default());
        assert!(matches!(r, Err(Error::InvalidConfig)), "should be invalid: {} = {}", key, raw);
    }
}

#[test]
fn set_of_an_unknown_key_is_rejected() {
    let r = Subcommands::Assign { key: "volume".to_string(), value: "5".to_string() }
        .run(&Config::default());
    assert!(matches!(r, Err(Error::InvalidConfig)));
}

#[test]
fn scalar_values_parse_and_render_canonically() {
    assert!(matches!(parse_value("null"), Ok(JsonValue::Null)));
    assert!(matches!(parse_value("true"), Ok(JsonValue::Bool(true))));
    assert!(matches!(parse_value("false"), Ok(JsonValue::Bool(false))));
    match parse_value("30") {
        Ok(JsonValue::UInt(n)) => assert_eq!(n, 30),
        other => panic!("expected a number, got {:?}", other),
    }
    match parse_value("\"Kitchen\"") {
        Ok(JsonValue::Str(s)) => assert_eq!(s, "Kitchen"),
        other => panic!("expected a string, got {:?}", other),
    }
    assert_eq!(render_value(&JsonValue::Null), "null");
    assert_eq!(render_value(&JsonValue::Bool(true)), "true");
    assert_eq!(render_value(&JsonValue::UInt(30)), "30");
    assert_eq!(render_value(&JsonValue::Str("Kitchen".to_string())), "\"Kitchen\"");
    assert_eq!(render_value(&JsonValue::UInt(0)), "0");
    assert_eq!(render_value(&JsonValue::UInt(u64::MAX)), "18446744073709551615");
}

#[test]
fn numbers_round_trip_through_the_codec() {
    for n in [0u64, 1, 9, 10, 99, 100, 12345, u64::MAX] {
        let text = render_value(&JsonValue::UInt(n));
        match parse_value(&text) {
            Ok(JsonValue::UInt(m)) => assert_eq!(m, n),
            other => panic!("expected a number, got {:?}", other),
        }
    }
}
