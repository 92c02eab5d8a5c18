use station::accents::accent::{Accent, Severity, SeverityBody};
use station::accents::callback::{ReplacementCallback, SimpleString};
use station::accents::defs::{
    default_bool_true, AccentDef, ReplacementCallbackDef, SeverityBodyDef, SeverityDef,
};

fn rule(pattern: &str, cb: ReplacementCallbackDef) -> (String, ReplacementCallbackDef) {
    (pattern.to_owned(), cb)
}

fn simple(s: &str) -> ReplacementCallbackDef {
    ReplacementCallbackDef::Simple(s.to_owned())
}

fn body(
    words: Vec<(String, ReplacementCallbackDef)>,
    patterns: Vec<(String, ReplacementCallbackDef)>,
) -> SeverityBodyDef {
    SeverityBodyDef { words, patterns }
}

fn def(
    name: &str,
    words: Vec<(String, ReplacementCallbackDef)>,
    patterns: Vec<(String, ReplacementCallbackDef)>,
    severities: Vec<(u64, SeverityDef)>,
) -> AccentDef {
    AccentDef {
        name: name.to_owned(),
        normalize_case: default_bool_true(),
        words,
        patterns,
        severities,
    }
}

fn cb_simple(s: &str) -> ReplacementCallback {
    ReplacementCallback::Simple(SimpleString::new(s))
}

/// The rules of an accent, each as its regular expression source and its callback.
fn levels_of(accent: &Accent) -> Vec<(u64, Vec<(String, String)>)> {
    accent
        .levels()
        .iter()
        .map(|(severity, rules)| {
            (
                *severity,
                rules
                    .iter()
                    .map(|r| (r.source().to_owned(), format!("{:?}", r.callback())))
                    .collect(),
            )
        })
        .collect()
}

fn expected(levels: Vec<(u64, Vec<(&str, ReplacementCallback)>)>) -> Vec<(u64, Vec<(String, String)>)> {
    levels
        .into_iter()
        .map(|(severity, rules)| {
            (
                severity,
                rules
                    .into_iter()
                    .map(|(source, cb)| (source.to_owned(), format!("{:?}", cb)))
                    .collect(),
            )
        })
        .collect()
}

#[test]
fn e() {
    let e = Accent::new(
        "E".to_owned(),
        false,
        vec![],
        vec![
            (r"(?-i)[a-z]".to_owned(), cb_simple("e")),
            (r"(?-i)[A-Z]".to_owned(), cb_simple("E")),
        ],
        vec![],
    )
    .unwrap();

    assert_eq!(e.apply("Hello World!", 0), "Eeeee Eeeee!");
}

#[test]
fn ron_minimal() {
    let _ = Accent::try_from(def("myname", vec![], vec![], vec![])).unwrap();
}

#[test]
fn ron_empty() {
    let a = Accent::try_from(def("foobar", vec![], vec![], vec![])).unwrap();
    assert_eq!(a.name, "foobar");
    assert_eq!(a.severities(), vec![0]);
}

#[test]
fn ron_extend_extends() {
    let parsed = Accent::try_from(def(
        "extend",
        vec![rule("a", ReplacementCallbackDef::Noop)],
        vec![rule("1", ReplacementCallbackDef::Noop)],
        vec![(
            1,
            SeverityDef::Extend(body(
                vec![rule("b", ReplacementCallbackDef::Noop)],
                vec![rule("2", ReplacementCallbackDef::Noop)],
            )),
        )],
    ))
    .unwrap();

    let manual = expected(vec![
        (
            0,
            vec![
                (r"(?mi)\ba\b", ReplacementCallback::Noop),
                ("(?m)1", ReplacementCallback::Noop),
            ],
        ),
        (
            1,
            vec![
                (r"(?mi)\ba\b", ReplacementCallback::Noop),
                (r"(?mi)\bb\b", ReplacementCallback::Noop),
                ("(?m)1", ReplacementCallback::Noop),
                ("(?m)2", ReplacementCallback::Noop),
            ],
        ),
    ]);

    assert_eq!(parsed.name, "extend");
    assert!(parsed.normalizes_case());
    assert_eq!(levels_of(&parsed), manual);
    assert_eq!(parsed.severities(), vec![0, 1]);
}

#[test]
fn ron_replace_replaces() {
    let parsed = Accent::try_from(def(
        "replace",
        vec![rule("a", ReplacementCallbackDef::Noop)],
        vec![rule("1", ReplacementCallbackDef::Noop)],
        vec![(
            1,
            SeverityDef::Replace(body(
                vec![rule("b", ReplacementCallbackDef::Noop)],
                vec![rule("2", ReplacementCallbackDef::Noop)],
            )),
        )],
    ))
    .unwrap();

    let manual = expected(vec![
        (
            0,
            vec![
                (r"(?mi)\ba\b", ReplacementCallback::Noop),
                ("(?m)1", ReplacementCallback::Noop),
            ],
        ),
        (
            1,
            vec![
                (r"(?mi)\bb\b", ReplacementCallback::Noop),
                ("(?m)2", ReplacementCallback::Noop),
            ],
        ),
    ]);

    assert_eq!(parsed.name, "replace");
    assert!(parsed.normalizes_case());
    assert_eq!(levels_of(&parsed), manual);
}

#[test]
fn ron_invalid_callback_any() {
    assert!(Accent::try_from(def(
        "foobar",
        vec![],
        vec![rule("a", ReplacementCallbackDef::Any(vec![]))],
        vec![],
    ))
    .err()
    .unwrap()
    .contains("Empty Any"));
}

#[test]
fn ron_invalid_callback_weighted() {
    assert!(Accent::try_from(def(
        "foobar",
        vec![],
        vec![rule("a", ReplacementCallbackDef::Weights(vec![]))],
        vec![],
    ))
    .err()
    .unwrap()
    .contains("Empty Weights"));

    assert!(Accent::try_from(def(
        "foobar",
        vec![],
        vec![rule(
            "a",
            ReplacementCallbackDef::Weights(vec![
                (0, ReplacementCallbackDef::Noop),
                (0, ReplacementCallbackDef::Noop),
            ])
        )],
        vec![],
    ))
    .err()
    .unwrap()
    .contains("Weights add up to 0"));
}

#[test]
fn ron_severity_starts_from_0() {
    assert!(Accent::try_from(def(
        "0",
        vec![],
        vec![],
        vec![(0, SeverityDef::Extend(body(vec![], vec![])))],
    ))
    .err()
    .unwrap()
    .contains("Severity cannot be 0"));
}

#[test]
fn ron_all_features() {
    let parsed = Accent::try_from(AccentDef {
        name: "test".to_owned(),
        normalize_case: true,
        words: vec![
            rule("test", simple("Testing in progress; Please ignore ...")),
            rule("badword", simple("")),
            rule("dupe", simple("0")),
        ],
        patterns: vec![
            rule("[a-z]", simple("e")),
            rule(
                "[A-Z]",
                ReplacementCallbackDef::Weights(vec![
                    (5, simple("E")),
                    (1, simple("Ē")),
                    (1, simple("Ê")),
                    (1, simple("Ë")),
                    (1, simple("È")),
                    (1, simple("É")),
                ]),
            ),
            rule(
                "[0-9]",
                ReplacementCallbackDef::Any(vec![ReplacementCallbackDef::Weights(vec![(
                    1,
                    ReplacementCallbackDef::Any(vec![
                        simple("6"),
                        simple("9"),
                        ReplacementCallbackDef::Noop,
                    ]),
                )])]),
            ),
        ],
        severities: vec![
            (
                1,
                SeverityDef::Replace(body(
                    vec![
                        rule("replaced", simple("words")),
                        rule("dupe", simple("1")),
                        rule("Windows", simple("Linux")),
                    ],
                    vec![rule("a+", simple("multiple A's")), rule("^", simple("start"))],
                )),
            ),
            (
                2,
                SeverityDef::Extend(body(
                    vec![rule("dupe", simple("2")), rule("added", simple("words"))],
                    vec![rule("b+", simple("multiple B's")), rule("$", simple("end"))],
                )),
            ),
        ],
    })
    .unwrap();

    let manual = expected(vec![
        (
            0,
            vec![
                (
                    r"(?mi)\btest\b",
                    cb_simple("Testing in progress; Please ignore ..."),
                ),
                (r"(?mi)\bbadword\b", cb_simple("")),
                (r"(?mi)\bdupe\b", cb_simple("0")),
                (r"(?m)[a-z]", cb_simple("e")),
                (
                    r"(?m)[A-Z]",
                    ReplacementCallback::Weights(vec![
                        (5, cb_simple("E")),
                        (1, cb_simple("Ē")),
                        (1, cb_simple("Ê")),
                        (1, cb_simple("Ë")),
                        (1, cb_simple("È")),
                        (1, cb_simple("É")),
                    ]),
                ),
                (
                    r"(?m)[0-9]",
                    ReplacementCallback::Any(vec![ReplacementCallback::Weights(vec![(
                        1,
                        ReplacementCallback::Any(vec![
                            cb_simple("6"),
                            cb_simple("9"),
                            ReplacementCallback::Noop,
                        ]),
                    )])]),
                ),
            ],
        ),
        (
            1,
            vec![
                (r"(?mi)\breplaced\b", cb_simple("words")),
                (r"(?mi)\bdupe\b", cb_simple("1")),
                (r"(?m)\bWindows\b", cb_simple("Linux")),
                (r"(?m)a+", cb_simple("multiple A's")),
                (r"(?m)^", cb_simple("start")),
            ],
        ),
        (
            2,
            vec![
                (r"(?mi)\breplaced\b", cb_simple("words")),
                (r"(?mi)\bdupe\b", cb_simple("2")),
                (r"(?m)\bWindows\b", cb_simple("Linux")),
                (r"(?mi)\badded\b", cb_simple("words")),
                (r"(?m)a+", cb_simple("multiple A's")),
                (r"(?m)^", cb_simple("start")),
                (r"(?m)b+", cb_simple("multiple B's")),
                (r"(?m)$", cb_simple("end")),
            ],
        ),
    ]);
    assert_eq!(parsed.name, "test");
    assert!(parsed.normalizes_case());
    assert_eq!(manual, levels_of(&parsed));
}

#[test]
fn duplicates_eliminated() {
    let parsed = Accent::try_from(def(
        "dupes",
        vec![
            rule("dupew", simple("0")),
            rule("dupew", simple("1")),
            rule("dupew", simple("2")),
        ],
        vec![
            rule("dupep", simple("0")),
            rule("dupep", simple("1")),
            rule("dupep", simple("2")),
        ],
        vec![],
    ))
    .unwrap();

    let manual = expected(vec![(
        0,
        vec![
            (r"(?mi)\bdupew\b", cb_simple("2")),
            (r"(?mi)dupep", cb_simple("2")),
        ],
    )]);

    assert_eq!(parsed.name, "dupes");
    assert!(parsed.normalizes_case());
    assert_eq!(levels_of(&parsed), manual);
}

#[test]
fn severity_selection() {
    let accent = Accent::try_from(def(
        "severity",
        vec![rule("severity", simple("0"))],
        vec![],
        vec![
            (
                1,
                SeverityDef::Replace(body(vec![rule("severity", simple("1"))], vec![])),
            ),
            (
                5,
                SeverityDef::Replace(body(vec![rule("severity", simple("5"))], vec![])),
            ),
        ],
    ))
    .unwrap();

    assert_eq!(accent.apply("severity", 0), "0");
    assert_eq!(accent.apply("severity", 1), "1");
    assert_eq!(accent.apply("severity", 4), "1");
    assert_eq!(accent.apply("severity", 5), "5");
    assert_eq!(accent.apply("severity", 9000 + 1), "5");
}

#[test]
fn severities_listed_in_ascending_order() {
    let accent = Accent::new(
        "gaps".to_owned(),
        true,
        vec![("x".to_owned(), cb_simple("y"))],
        vec![],
        vec![
            (
                3,
                Severity::Extend(SeverityBody {
                    words: vec![],
                    patterns: vec![],
                }),
            ),
            (
                10,
                Severity::Replace(SeverityBody {
                    words: vec![],
                    patterns: vec![],
                }),
            ),
        ],
    )
    .unwrap();
    assert_eq!(accent.severities(), vec![0, 3, 10]);
    // level 10 replaced every rule with nothing
    assert_eq!(accent.apply("x", 10), "x");
    assert_eq!(accent.apply("x", 9), "y");
}

#[test]
fn words_keep_case_of_input() {
    let accent = Accent::try_from(def(
        "case",
        vec![rule("hello", simple("bye"))],
        vec![],
        vec![],
    ))
    .unwrap();
    assert_eq!(accent.apply("HELLO there, hello", 0), "BYE there, bye");
    // inside another word: not a word match
    assert_eq!(accent.apply("othello", 0), "othello");
}

#[test]
fn word_error_names_position() {
    let err = Accent::try_from(def(
        "bad",
        vec![rule("ok", ReplacementCallbackDef::Noop), rule("x", ReplacementCallbackDef::Any(vec![]))],
        vec![],
        vec![],
    ))
    .err()
    .unwrap();
    assert!(err.contains("word 1"));
    assert!(err.contains("Empty Any"));
}

#[test]
fn bad_regex_is_an_error() {
    let err = Accent::try_from(def(
        "bad",
        vec![],
        vec![rule("(", ReplacementCallbackDef::Noop)],
        vec![],
    ))
    .err()
    .unwrap();
    assert!(err.contains("bad regex for pattern 0"));
}

#[test]
fn definitions_normalize_case_by_default() {
    assert!(default_bool_true());
    let a = Accent::try_from(def("default", vec![], vec![], vec![])).unwrap();
    assert!(a.normalizes_case());
    let b = Accent::try_from(AccentDef {
        name: "plain".to_owned(),
        normalize_case: false,
        words: vec![],
        patterns: vec![],
        severities: vec![],
    })
    .unwrap();
    assert!(!b.normalizes_case());
}

#[test]
fn apply_uses_highest_defined_level_not_above_request() {
    let accent = Accent::try_from(def(
        "levels",
        vec![rule("cat", simple("dog"))],
        vec![],
        vec![
            (2, SeverityDef::Extend(body(vec![rule("dog", simple("wolf"))], vec![]))),
            (7, SeverityDef::Replace(body(vec![rule("cat", simple("lion"))], vec![]))),
        ],
    ))
    .unwrap();
    for text in ["cat", "a cat and a dog", "nothing here", ""] {
        assert_eq!(accent.apply(text, 1), accent.apply(text, 0));
        assert_eq!(accent.apply(text, 3), accent.apply(text, 2));
        assert_eq!(accent.apply(text, 6), accent.apply(text, 2));
        assert_eq!(accent.apply(text, u64::MAX), accent.apply(text, 7));
    }
    assert_eq!(accent.apply("a cat and a dog", 6), "a wolf and a wolf");
    assert_eq!(accent.apply("a cat and a dog", 8), "a lion and a dog");
}
