use temper::lint::{
    compile, compile_all, default_msg, default_msg_mapping, default_regex, default_tokens, Lint,
    RuleCompileError, Severity,
};

const COMPLETE: &'static str = "\
[lint]
name = 'temper.test.complete'
severity = 'error'
msg = 'This is a complete toml lintset. Match: {match}'
msg_mapping = 'This is a complete toml lintset. {match}: {value}'
regex = 'f {regex} f'

tokens = ['a', '(?-u:b)', 'c']

[mapping]
breakfast = 'yes'
lunch = 'yes'
dinner = 'true'
dessert = 'false'
";

const DEFAULTS: &'static str = "\
[lint]
name = 'temper.test.defaults'

tokens = ['k']

[mapping]
hello = 'world'
";

const UNNAMED: &'static str = "
[lint]
msg = 'This lint has no name, and an error should be returned.'
severity = 'error'

tokens = ['whatever']
";

#[test]
fn lint_parse_complete() {
    let correct_mapping: Vec<(String, Option<String>)> = vec![
        (String::from("f a f"), None),
        (String::from("f (?-u:b) f"), None),
        (String::from("f c f"), None),
        (String::from("f breakfast f"), Some(String::from("yes"))),
        (String::from("f lunch f"), Some(String::from("yes"))),
        (String::from("f dinner f"), Some(String::from("true"))),
        (String::from("f dessert f"), Some(String::from("false"))),
    ];

    let correct = Lint {
        name: String::from("temper.test.complete"),
        severity: Severity::Error,
        msg: String::from("This is a complete toml lintset. Match: {match}"),
        msg_mapping: String::from("This is a complete toml lintset. {match}: {value}"),
        mapping: correct_mapping,
    };

    assert_eq!(correct, compile(COMPLETE).unwrap());
}

#[test]
fn lint_parse_defaults() {
    let correct_mapping: Vec<(String, Option<String>)> = vec![
        (String::from(r"\bk\b"), None),
        (String::from(r"\bhello\b"), Some(String::from("world"))),
    ];

    let correct = Lint {
        name: String::from("temper.test.defaults"),
        severity: Severity::Warning,
        msg: default_msg(),
        msg_mapping: default_msg_mapping(),
        mapping: correct_mapping,
    };

    assert_eq!(correct, compile(DEFAULTS).unwrap());
}

#[test]
fn lint_parse_unnamed() {
    assert!(compile(UNNAMED).is_err());
}

#[test]
fn missing_name_is_rejected() {
    assert_eq!(Err(RuleCompileError::MissingField), compile(UNNAMED));
    let empty_name = "\
[lint]
name = ''

tokens = ['x']
";
    assert_eq!(Err(RuleCompileError::MissingField), compile(empty_name));
}

#[test]
fn compilation_is_idempotent() {
    let once = compile(COMPLETE).unwrap();
    let twice = compile(COMPLETE).unwrap();
    assert_eq!(once, twice);
    let d_once = compile(DEFAULTS).unwrap();
    let d_twice = compile(DEFAULTS).unwrap();
    assert_eq!(d_once, d_twice);
}

#[test]
fn token_defaulting_wraps_in_word_boundaries() {
    let doc = "\
[lint]
name = 'temper.test.tokens'

tokens = ['k']
";
    let lint = compile(doc).unwrap();
    assert_eq!(1, lint.mapping.len());
    assert_eq!(String::from(r"\bk\b"), lint.mapping[0].0);
    assert_eq!(None, lint.mapping[0].1);
}

#[test]
fn duplicate_patterns_last_value_wins() {
    let doc = "\
[lint]
name = 'temper.test.dup'

tokens = ['bad']

[mapping]
bad = 'good'
";
    let lint = compile(doc).unwrap();
    assert_eq!(1, lint.mapping.len());
    assert_eq!(String::from(r"\bbad\b"), lint.mapping[0].0);
    assert_eq!(Some(String::from("good")), lint.mapping[0].1);
}

#[test]
fn malformed_document_is_rejected() {
    assert_eq!(Err(RuleCompileError::Malformed), compile("this is not toml ["));
    assert_eq!(Err(RuleCompileError::Malformed), compile("just_a_key = 1"));
    let bad_severity = "
[lint]
name = 'x'
severity = 'catastrophic'
";
    assert_eq!(Err(RuleCompileError::Malformed), compile(bad_severity));
    let bad_tokens = "
[lint]
name = 'x'
tokens = [1, 2]
";
    assert_eq!(Err(RuleCompileError::Malformed), compile(bad_tokens));
}

#[test]
fn bad_wrap_template_is_rejected() {
    let doc = "
[lint]
name = 'x'
regex = '{unknown}'
tokens = ['k']
";
    assert_eq!(Err(RuleCompileError::Template), compile(doc));
}

#[test]
fn defaults_have_documented_values() {
    assert_eq!(String::from("{match} is a usage error"), default_msg());
    assert_eq!(
        String::from("Consider replacing {match} with {value}"),
        default_msg_mapping()
    );
    assert_eq!(String::from(r"\b{regex}\b"), default_regex());
    assert!(default_tokens().is_empty());
    assert_eq!(Severity::Warning, Severity::default());
}

#[test]
fn compile_all_fails_on_first_bad_document() {
    let good = String::from(DEFAULTS);
    let bad = String::from(UNNAMED);
    let ok = compile_all(&vec![good.clone(), good.clone()]).unwrap();
    assert_eq!(2, ok.len());
    assert!(compile_all(&vec![good, bad]).is_err());
}
