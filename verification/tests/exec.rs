use qmlgreetd::exec::{parse_exec, shell_quote, to_greetd_cmd, ExecError};

#[test]
fn splits_on_whitespace() {
    assert_eq!(parse_exec("foo bar").unwrap(), vec!["foo", "bar"]);
}

#[test]
fn respects_quotes() {
    assert_eq!(
        parse_exec("\"/usr/bin/foo bar\" --x").unwrap(),
        vec!["/usr/bin/foo bar", "--x"]
    );
    assert_eq!(parse_exec("'a b' c").unwrap(), vec!["a b", "c"]);
}

#[test]
fn removes_field_codes() {
    assert_eq!(parse_exec("foo %U").unwrap(), vec!["foo"]);
    assert_eq!(parse_exec("--file=%f").unwrap(), vec!["--file="]);
    assert_eq!(parse_exec("100%%").unwrap(), vec!["100%"]);
    assert_eq!(parse_exec("%f").unwrap_err(), ExecError::Empty);
}

#[test]
fn rejects_malformed_input() {
    assert_eq!(parse_exec("").unwrap_err(), ExecError::Empty);
    assert_eq!(
        parse_exec("foo \"bar").unwrap_err(),
        ExecError::UnterminatedQuote
    );
}

#[test]
fn quotes_for_a_shell() {
    assert_eq!(shell_quote("plain"), "'plain'");
    assert_eq!(shell_quote("a b"), "'a b'");
    assert_eq!(shell_quote("it's"), r#"'it'\''s'"#);
    assert_eq!(shell_quote(""), "''");
}

// Further scenarios.

#[test]
fn hostile_exec_is_split_literally() {
    let argv = parse_exec("echo safe; touch pwned").unwrap();
    assert_eq!(argv, vec!["echo", "safe;", "touch", "pwned"]);
    let command = format!("exec {}", to_greetd_cmd(&argv).join(" "));
    assert_eq!(command, "exec 'echo' 'safe;' 'touch' 'pwned'");
}

#[test]
fn backslash_escapes_and_tabs() {
    assert_eq!(parse_exec("a\\ b\tc").unwrap(), vec!["a b", "c"]);
    assert_eq!(parse_exec("\"say \\\"hi\\\"\"").unwrap(), vec!["say \"hi\""]);
    assert_eq!(parse_exec("'it\\s'").unwrap(), vec!["it\\s"]);
    assert_eq!(parse_exec("\"\"").unwrap(), vec![""]);
    assert_eq!(parse_exec("   ").unwrap_err(), ExecError::Empty);
    assert_eq!(parse_exec("'open").unwrap_err(), ExecError::UnterminatedQuote);
}

#[test]
fn field_codes_inside_quotes_and_at_the_end() {
    assert_eq!(parse_exec("\"%u x\"").unwrap(), vec![" x"]);
    assert_eq!(parse_exec("a%").unwrap(), vec!["a%"]);
    assert_eq!(parse_exec("\"50%%\"").unwrap(), vec!["50%"]);
}

#[test]
fn error_messages_describe_the_problem() {
    assert_eq!(ExecError::Empty.message(), "the Exec line is empty");
    assert_eq!(
        ExecError::UnterminatedQuote.message(),
        "the Exec line has an unterminated quote"
    );
}

#[test]
fn each_argument_is_quoted_for_greetd() {
    let argv = vec!["/usr/bin/sway".to_string(), "it's".to_string()];
    assert_eq!(to_greetd_cmd(&argv), vec!["'/usr/bin/sway'", r#"'it'\''s'"#]);
    assert!(to_greetd_cmd(&[]).is_empty());
}

#[test]
fn a_quoted_argument_splits_back_whole() {
    for arg in ["it's a; b", "", "plain", "\"dq\" \\ back", "''"] {
        assert_eq!(parse_exec(&shell_quote(arg)).unwrap(), vec![arg.to_string()]);
    }
}
