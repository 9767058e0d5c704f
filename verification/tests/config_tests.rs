use gitlab_config::config::Config;
use gitlab_config::config::ConfigError;
use gitlab_config::decode::decode_config;
use gitlab_config::encode::encode_config;
use gitlab_config::store::config_file_name;
use gitlab_config::store::load_outcome;
use gitlab_config::store::save_plan;

fn cfg(url: &str, token: &str) -> Config {
    Config { url: String::from(url), token: String::from(token) }
}

#[test]
fn round_trip_example() {
    let c = cfg("https://gitlab.example.com", "abc123");
    let text = encode_config(&c);
    let back = decode_config(&text).unwrap();
    assert_eq!(back.url, "https://gitlab.example.com");
    assert_eq!(back.token, "abc123");
    assert_eq!(back, c);
}

#[test]
fn encode_exact_text() {
    let c = cfg("https://gitlab.example.com", "abc123");
    assert_eq!(
        encode_config(&c),
        "{\"url\":\"https://gitlab.example.com\",\"token\":\"abc123\"}"
    );
}

#[test]
fn encode_escapes_exact_text() {
    let c = cfg("a\"b\\c\u{1}", "\t");
    assert_eq!(
        encode_config(&c),
        "{\"url\":\"a\\\"b\\\\c\\u0001\",\"token\":\"\\t\"}"
    );
}

#[test]
fn round_trip_special_characters() {
    let cases = [
        ("", ""),
        ("quote \" and backslash \\", "newline \n and tab \t"),
        ("control \u{1} \u{1f} \u{8} \u{c} \r", "slash / stays"),
        ("unicode \u{e9}\u{4e2d}\u{1f600}", "mixed \"\\\n\u{0}"),
    ];
    for (u, t) in cases {
        let c = cfg(u, t);
        let back = decode_config(&encode_config(&c)).unwrap();
        assert_eq!(back, c);
    }
}

#[test]
fn save_twice_writes_identical_bytes() {
    let c = cfg("https://gitlab.example.com", "abc123");
    let first = encode_config(&c);
    let second = encode_config(&c);
    assert_eq!(first.as_bytes(), second.as_bytes());
}

#[test]
fn load_without_directory_fails_with_directory_unavailable() {
    let r = load_outcome(false, None);
    assert_eq!(r.unwrap_err(), ConfigError::DirectoryUnavailable);
}

#[test]
fn load_missing_file_fails_with_io_error() {
    let r = load_outcome(true, None);
    assert_eq!(r.unwrap_err(), ConfigError::IoError);
}

#[test]
fn load_of_saved_text_round_trips() {
    let c = cfg("https://gitlab.example.com", "abc123");
    let plan = save_plan(true, &c).unwrap();
    let r = load_outcome(true, Some(plan.contents.as_str()));
    assert_eq!(r.unwrap(), c);
}

#[test]
fn malformed_text_fails_with_decode_error() {
    let cases = [
        "",
        "hello",
        "{",
        "{\"url\":\"x\"",
        "[1,2,3]",
        "\"just a string\"",
        "{\"url\":\"x\",\"token\":\"y\"} trailing",
        "{\"url\":\"x\" \"token\":\"y\"}",
        "{\"url\":\"x\",\"token\":\"y\",}",
        "{\"url\":\"x\\q\",\"token\":\"y\"}",
        "{\"url\":\"a\nb\",\"token\":\"y\"}",
    ];
    for text in cases {
        assert_eq!(decode_config(text).unwrap_err(), ConfigError::DecodeError);
    }
}

#[test]
fn missing_field_fails_with_decode_error() {
    assert_eq!(decode_config("{\"url\": \"x\"}").unwrap_err(), ConfigError::DecodeError);
    assert_eq!(decode_config("{\"token\": \"y\"}").unwrap_err(), ConfigError::DecodeError);
    assert_eq!(decode_config("{}").unwrap_err(), ConfigError::DecodeError);
}

#[test]
fn field_of_wrong_type_fails_with_decode_error() {
    assert_eq!(
        decode_config("{\"url\": 1, \"token\": \"y\"}").unwrap_err(),
        ConfigError::DecodeError
    );
    assert_eq!(
        decode_config("{\"url\": \"x\", \"token\": null}").unwrap_err(),
        ConfigError::DecodeError
    );
}

#[test]
fn repeated_field_fails_with_decode_error() {
    assert_eq!(
        decode_config("{\"url\":\"a\",\"url\":\"b\",\"token\":\"y\"}").unwrap_err(),
        ConfigError::DecodeError
    );
}

#[test]
fn unknown_fields_are_ignored() {
    let text = "{\"extra\": [1, {\"a\": null}, true, false], \"url\": \"x\", \
                \"more\": -1.5e3, \"token\": \"y\", \"s\": \"z\"}";
    let c = decode_config(text).unwrap();
    assert_eq!(c, cfg("x", "y"));
}

#[test]
fn surrogate_pairs_decode_to_their_character() {
    let text = "{\"url\":\"\\ud834\\udd1e\",\"token\":\"a \\uD83D\\uDE00 b\"}";
    let c = decode_config(text).unwrap();
    assert_eq!(c.url, "\u{1d11e}");
    assert_eq!(c.token, "a \u{1f600} b");
}

#[test]
fn paired_surrogates_round_trip_through_the_stored_text() {
    let c = cfg("clef \u{1d11e}", "grin \u{1f600}");
    let back = decode_config(&encode_config(&c)).unwrap();
    assert_eq!(back, c);
}

#[test]
fn lone_or_mismatched_surrogates_fail_with_decode_error() {
    let cases = [
        "{\"url\":\"\\ud800\",\"token\":\"y\"}",
        "{\"url\":\"\\udd1e\",\"token\":\"y\"}",
        "{\"url\":\"\\ud834\\u0041\",\"token\":\"y\"}",
        "{\"url\":\"\\ud834x\",\"token\":\"y\"}",
        "{\"url\":\"\\ud834\\ud834\\udd1e\",\"token\":\"y\"}",
    ];
    for text in cases {
        assert_eq!(decode_config(text).unwrap_err(), ConfigError::DecodeError);
    }
}

#[test]
fn field_order_does_not_matter() {
    let text = "{\"token\":\"y\",\"url\":\"x\"}";
    assert_eq!(decode_config(text).unwrap(), cfg("x", "y"));
}

#[test]
fn whitespace_is_tolerated() {
    let text = " \t\r\n{ \"url\" : \"x\" ,\n \"token\" : \"y\" } \n";
    assert_eq!(decode_config(text).unwrap(), cfg("x", "y"));
}

#[test]
fn escapes_decode_to_their_characters() {
    let text = "{\"url\":\"a\\nb\\/c\\u0041\",\"token\":\"\\\"\\\\\\b\\f\\r\\t\\u00e9\"}";
    let c = decode_config(text).unwrap();
    assert_eq!(c.url, "a\nb/cA");
    assert_eq!(c.token, "\"\\\u{8}\u{c}\r\t\u{e9}");
}

#[test]
fn nesting_within_the_bound_is_accepted() {
    let text = "{\"url\":\"x\",\"deep\":[[[{\"a\":[1,2]}]]],\"token\":\"y\"}";
    assert_eq!(decode_config(text).unwrap(), cfg("x", "y"));
}

#[test]
fn nesting_beyond_the_bound_fails_with_decode_error() {
    let mut text = String::from("{\"url\":\"x\",\"token\":\"y\",\"deep\":");
    for _ in 0..200 {
        text.push('[');
    }
    text.push('1');
    for _ in 0..200 {
        text.push(']');
    }
    text.push('}');
    assert_eq!(decode_config(&text).unwrap_err(), ConfigError::DecodeError);
}

#[test]
fn save_plan_carries_name_and_encoded_text() {
    let c = cfg("u", "t");
    let plan = save_plan(true, &c).unwrap();
    assert_eq!(plan.file_name, "gitlab_config.json");
    assert_eq!(plan.contents, "{\"url\":\"u\",\"token\":\"t\"}");
}

#[test]
fn save_without_directory_fails_with_directory_unavailable() {
    let c = cfg("u", "t");
    assert_eq!(
        save_plan(false, &c).unwrap_err(),
        ConfigError::DirectoryUnavailable
    );
}

#[test]
fn file_name_is_fixed() {
    assert_eq!(config_file_name(), "gitlab_config.json");
}

#[test]
fn error_messages_are_descriptive() {
    assert_eq!(
        ConfigError::DirectoryUnavailable.message(),
        "Failed to get app config directory"
    );
    assert_eq!(
        ConfigError::IoError.message(),
        "could not read or write the configuration file"
    );
    assert_eq!(
        ConfigError::EncodeError.message(),
        "could not encode the configuration"
    );
    assert_eq!(
        ConfigError::DecodeError.message(),
        "the stored configuration is not valid"
    );
}
