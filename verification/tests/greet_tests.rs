use rusty_greeter::greet::Input;
use rusty_greeter::greet::process_input;
use rusty_greeter::greet::value_gated_process_input;

#[test]
fn input_with_test_param_none() {
    let res = process_input(Input {
        name: "test".to_string(),
        test_param: None,
    });
    assert_eq!(res.is_ok(), true);
    assert_eq!(
        res.unwrap().greeting,
        "Hello Rusty Lambda World! Received param name: test!"
    );
}

#[test]
fn input_with_test_param_false() {
    let res = process_input(Input {
        name: "test".to_string(),
        test_param: Some(false),
    });
    assert_eq!(res.is_ok(), true);
    assert_eq!(
        res.unwrap().greeting,
        "Hello Rusty Lambda World! Received param name: test! And param test was set as false!"
    );
}

#[test]
fn input_with_test_param_true() {
    let res = process_input(Input {
        name: "test".to_string(),
        test_param: Some(true),
    });
    assert_eq!(res.is_ok(), true);
    assert_eq!(
        res.unwrap().greeting,
        "Hello Rusty Lambda World! Received param name: test! And param test was set as true!"
    );
}

#[test]
fn value_gated_true_appends_fixed_suffix() {
    let res = value_gated_process_input(Input {
        name: "test".to_string(),
        test_param: Some(true),
    });
    assert_eq!(
        res.unwrap().greeting,
        "Hello Rusty Lambda World! Received param name: test! And param test was set!"
    );
}

#[test]
fn value_gated_false_appends_nothing() {
    let res = value_gated_process_input(Input {
        name: "test".to_string(),
        test_param: Some(false),
    });
    assert_eq!(
        res.unwrap().greeting,
        "Hello Rusty Lambda World! Received param name: test!"
    );
}

#[test]
fn value_gated_absent_appends_nothing() {
    let res = value_gated_process_input(Input {
        name: "test".to_string(),
        test_param: None,
    });
    assert_eq!(
        res.unwrap().greeting,
        "Hello Rusty Lambda World! Received param name: test!"
    );
}

#[test]
fn transformer_is_deterministic() {
    let a = process_input(Input {
        name: "same".to_string(),
        test_param: Some(true),
    });
    let b = process_input(Input {
        name: "same".to_string(),
        test_param: Some(true),
    });
    assert_eq!(a.unwrap().greeting, b.unwrap().greeting);
}

#[test]
fn name_is_substituted_verbatim() {
    let res = process_input(Input {
        name: "  A b\"c\\d  ".to_string(),
        test_param: None,
    });
    assert_eq!(
        res.unwrap().greeting,
        "Hello Rusty Lambda World! Received param name:   A b\"c\\d  !"
    );
}
