use station::accents::callback::{ReplacementCallback, SimpleString};

#[test]
fn normalize_case_input_lowercase() {
    assert_eq!(
        ReplacementCallback::normalize_case("hello", &SimpleString::new("bye")),
        "bye"
    );
    assert_eq!(
        ReplacementCallback::normalize_case("hello", &SimpleString::new("Bye")),
        "Bye"
    );
    assert_eq!(
        ReplacementCallback::normalize_case("hello", &SimpleString::new("bYE")),
        "bYE"
    );
}

#[test]
fn normalize_case_input_uppercase() {
    assert_eq!(
        ReplacementCallback::normalize_case("HELLO", &SimpleString::new("bye")),
        "BYE"
    );
    // has case variation -- do not touch it
    assert_eq!(
        ReplacementCallback::normalize_case("HELLO", &SimpleString::new("bYE")),
        "bYE"
    );
    // not ascii uppercase
    assert_eq!(
        ReplacementCallback::normalize_case("ПРИВЕТ", &SimpleString::new("bye")),
        "bye"
    );
    assert_eq!(
        ReplacementCallback::normalize_case("HELLO", &SimpleString::new("пока")),
        "пока"
    );
}

#[test]
fn normalize_case_input_different_case() {
    assert_eq!(
        ReplacementCallback::normalize_case("hELLO", &SimpleString::new("bye")),
        "bye"
    );
}

#[test]
fn normalize_case_input_different_case_same_len() {
    assert_eq!(
        ReplacementCallback::normalize_case("hELLO", &SimpleString::new("byeee")),
        "bYEEE"
    );
    assert_eq!(
        ReplacementCallback::normalize_case("hI!", &SimpleString::new("bye")),
        "bYe"
    );
    assert_eq!(
        ReplacementCallback::normalize_case("hI!", &SimpleString::new("Bye")),
        "Bye"
    );
}

#[test]
fn callback_none() {
    let replacement = ReplacementCallback::Noop;

    assert_eq!(replacement.replace("bar", false), "bar".to_owned());
    assert_eq!(replacement.replace("foo", false), "foo".to_owned());
}

#[test]
fn callback_simple() {
    let replacement = ReplacementCallback::Simple(SimpleString::new("bar"));

    assert_eq!(replacement.replace("bar", false), "bar".to_owned());
    assert_eq!(replacement.replace("foo", false), "bar".to_owned());
}

#[test]
fn callback_any() {
    let replacement = ReplacementCallback::Any(vec![
        ReplacementCallback::Simple(SimpleString::new("bar")),
        ReplacementCallback::Simple(SimpleString::new("baz")),
    ]);

    let selected = replacement.replace("bar", false);

    assert!(vec!["bar".to_owned(), "baz".to_owned()].contains(&selected));
}

#[test]
fn callback_weights() {
    let replacement = ReplacementCallback::Weights(vec![
        (1, ReplacementCallback::Simple(SimpleString::new("bar"))),
        (1, ReplacementCallback::Simple(SimpleString::new("baz"))),
        (0, ReplacementCallback::Simple(SimpleString::new("spam"))),
    ]);

    let selected = replacement.replace("bar", false);

    assert!(vec!["bar".to_owned(), "baz".to_owned()].contains(&selected));
}
