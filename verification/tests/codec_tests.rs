use rusty_greeter::codec::DecodeError;
use rusty_greeter::codec::decode_input;
use rusty_greeter::codec::decode_output;
use rusty_greeter::codec::encode_output;
use rusty_greeter::codec::handle_json;
use rusty_greeter::greet::Output;

#[test]
fn encode_plain_greeting() {
    let out = Output {
        greeting: "hi there".to_string(),
    };
    assert_eq!(encode_output(&out), "{\"greeting\":\"hi there\"}");
}

#[test]
fn encode_escapes_quotes_backslashes_and_controls() {
    let out = Output {
        greeting: "a\"b\\c\nd".to_string(),
    };
    assert_eq!(encode_output(&out), "{\"greeting\":\"a\\\"b\\\\c\\u000ad\"}");
}

#[test]
fn output_round_trip_plain() {
    let out = Output {
        greeting: "Hello Rusty Lambda World! Received param name: test!".to_string(),
    };
    let text = encode_output(&out);
    let back = decode_output(&text).unwrap();
    assert_eq!(back.greeting, out.greeting);
}

#[test]
fn output_round_trip_with_awkward_characters() {
    let out = Output {
        greeting: "q\"uo\\te\t\r\n\u{1}\u{1f} end\u{263a}".to_string(),
    };
    let text = encode_output(&out);
    let back = decode_output(&text).unwrap();
    assert_eq!(back.greeting, out.greeting);
}

#[test]
fn encoded_output_is_json_for_serde() {
    let out = Output {
        greeting: "a\"b\\c\nd and \u{263a}".to_string(),
    };
    let text = encode_output(&out);
    let parsed: serde_json::Value = serde_json::from_str(&text).unwrap();
    assert_eq!(
        parsed.get("greeting").unwrap().as_str().unwrap(),
        "a\"b\\c\nd and \u{263a}"
    );
}

#[test]
fn decode_output_accepts_named_escapes_and_whitespace() {
    let back = decode_output(" { \"greeting\" : \"a\\nb\\tc\\/d\" } ").unwrap();
    assert_eq!(back.greeting, "a\nb\tc/d");
}

#[test]
fn decode_input_with_both_members() {
    let inp = decode_input("{\"name\":\"test\",\"test_param\":true}").unwrap();
    assert_eq!(inp.name, "test");
    assert_eq!(inp.test_param, Some(true));
}

#[test]
fn decode_input_members_in_either_order() {
    let inp = decode_input(" { \"test_param\" : false , \"name\" : \"x y\" } ").unwrap();
    assert_eq!(inp.name, "x y");
    assert_eq!(inp.test_param, Some(false));
}

#[test]
fn decode_input_name_alone() {
    let inp = decode_input("{\"name\":\"test\"}").unwrap();
    assert_eq!(inp.name, "test");
    assert_eq!(inp.test_param, None);
}

#[test]
fn decode_input_unescapes_the_name() {
    let inp = decode_input("{\"name\":\"a\\\"b\\\\c\\u000ad\"}").unwrap();
    assert_eq!(inp.name, "a\"b\\c\nd");
}

#[test]
fn decode_input_missing_name_is_rejected() {
    assert!(matches!(
        decode_input("{\"test_param\":true}"),
        Err(DecodeError::MissingName)
    ));
    assert!(matches!(decode_input("{}"), Err(DecodeError::MissingName)));
}

#[test]
fn decode_input_duplicate_member_is_rejected() {
    assert!(matches!(
        decode_input("{\"name\":\"a\",\"name\":\"b\"}"),
        Err(DecodeError::DuplicateMember)
    ));
    assert!(matches!(
        decode_input("{\"name\":\"a\",\"test_param\":true,\"name\":\"b\"}"),
        Err(DecodeError::DuplicateMember)
    ));
}

#[test]
fn decode_input_ignores_unknown_members() {
    let inp = decode_input("{\"names\":\"a\",\"name\":\"ok\"}").unwrap();
    assert_eq!(inp.name, "ok");
    assert_eq!(inp.test_param, None);
}

#[test]
fn decode_input_ignores_unknown_members_of_any_value() {
    let text = "{\"count\":-12.5e+3,\"deep\":{\"list\":[1,{\"x\":null},[]],\"t\":\"a\\nb\"},\"ok\":true,\"empty\":{},\"name\":\"kept\",\"test_param\":false}";
    let inp = decode_input(text).unwrap();
    assert_eq!(inp.name, "kept");
    assert_eq!(inp.test_param, Some(false));
}

#[test]
fn decode_input_ignores_unknown_member_alone_but_wants_name() {
    assert!(matches!(
        decode_input("{\"names\":\"a\"}"),
        Err(DecodeError::MissingName)
    ));
}

#[test]
fn decode_input_null_flag_is_absent() {
    let inp = decode_input("{\"name\":\"x\",\"test_param\":null}").unwrap();
    assert_eq!(inp.name, "x");
    assert_eq!(inp.test_param, None);
}

#[test]
fn decode_input_null_flag_still_counts_for_duplicates() {
    assert!(matches!(
        decode_input("{\"test_param\":null,\"test_param\":true,\"name\":\"a\"}"),
        Err(DecodeError::DuplicateMember)
    ));
}

#[test]
fn decode_input_unicode_escapes_for_any_scalar() {
    let inp = decode_input("{\"name\":\"\\u0041\\u00e9\\u263a\"}").unwrap();
    assert_eq!(inp.name, "A\u{e9}\u{263a}");
}

#[test]
fn decode_input_surrogate_pair_escape() {
    let inp = decode_input("{\"name\":\"\\uD83D\\uDE00!\"}").unwrap();
    assert_eq!(inp.name, "\u{1f600}!");
}

#[test]
fn decode_input_lone_surrogate_is_rejected() {
    assert!(matches!(
        decode_input("{\"name\":\"\\uD83D\"}"),
        Err(DecodeError::Malformed)
    ));
    assert!(matches!(
        decode_input("{\"name\":\"\\uDE00\"}"),
        Err(DecodeError::Malformed)
    ));
}

#[test]
fn decode_input_escaped_key_is_recognized() {
    let inp = decode_input("{\"\\u006eame\":\"x\"}").unwrap();
    assert_eq!(inp.name, "x");
}

#[test]
fn decode_input_trailing_comma_is_rejected() {
    assert!(matches!(
        decode_input("{\"name\":\"a\",}"),
        Err(DecodeError::Malformed)
    ));
}

#[test]
fn decode_input_malformed_text_is_rejected() {
    assert!(matches!(decode_input("not json"), Err(DecodeError::Malformed)));
    assert!(matches!(decode_input(""), Err(DecodeError::Malformed)));
    assert!(matches!(
        decode_input("{\"name\":\"a\"} trailing"),
        Err(DecodeError::Malformed)
    ));
    assert!(matches!(
        decode_input("{\"name\":true}"),
        Err(DecodeError::Malformed)
    ));
    assert!(matches!(
        decode_input("{\"test_param\":maybe}"),
        Err(DecodeError::Malformed)
    ));
}

#[test]
fn handle_json_full_path() {
    let text = handle_json("{\"name\":\"test\"}").unwrap();
    assert_eq!(
        text,
        "{\"greeting\":\"Hello Rusty Lambda World! Received param name: test!\"}"
    );
}

#[test]
fn handle_json_with_flag() {
    let text = handle_json("{\"name\":\"test\",\"test_param\":true}").unwrap();
    assert_eq!(
        text,
        "{\"greeting\":\"Hello Rusty Lambda World! Received param name: test! And param test was set as true!\"}"
    );
}

#[test]
fn handle_json_missing_name_never_greets() {
    assert_eq!(
        handle_json("{\"test_param\":true}"),
        Err(DecodeError::MissingName)
    );
}
