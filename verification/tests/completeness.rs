use rush::input::{determine_command_completeness, CommandCompleteness};

#[test]
fn test_command_completeness_backslash() {
    let command = [
        "my_command \\",
        "some \\",
        "arguments \\",
        "on \\",
        "multiple \\",
        "lines \\",
    ]
    .join("\n");

    let completeness = determine_command_completeness(&command);
    assert_eq!(completeness, CommandCompleteness::Backslash);
}

#[test]
fn test_command_open_quote() {
    let command = ["my_command ", "some", "arguments", "on", "multiple", "lines '"].join("\n");
    let completeness = determine_command_completeness(&command);
    assert_eq!(completeness, CommandCompleteness::OpenSingleQuote);
}

#[test]
fn plain_text_is_complete() {
    assert_eq!(determine_command_completeness(""), CommandCompleteness::Complete);
    assert_eq!(determine_command_completeness("ls -la | wc\n"), CommandCompleteness::Complete);
    assert_eq!(determine_command_completeness("echo 'a b' \"c\" (d) {e} [f]"), CommandCompleteness::Complete);
}

#[test]
fn open_things_are_named() {
    assert_eq!(determine_command_completeness("echo \"a"), CommandCompleteness::OpenDoubleQuote);
    assert_eq!(determine_command_completeness("echo 'a"), CommandCompleteness::OpenSingleQuote);
    assert_eq!(determine_command_completeness("echo (a"), CommandCompleteness::OpenParens);
    assert_eq!(determine_command_completeness("echo {a"), CommandCompleteness::OpenBraces);
    assert_eq!(determine_command_completeness("echo [a"), CommandCompleteness::OpenBracket);
}

#[test]
fn first_open_thing_wins() {
    assert_eq!(determine_command_completeness("[ { ( "), CommandCompleteness::OpenParens);
    assert_eq!(determine_command_completeness("[ { "), CommandCompleteness::OpenBraces);
    assert_eq!(determine_command_completeness("( \""), CommandCompleteness::OpenDoubleQuote);
    assert_eq!(determine_command_completeness("( '"), CommandCompleteness::OpenSingleQuote);
}

#[test]
fn quotes_hide_brackets_and_each_other() {
    assert_eq!(determine_command_completeness("'(' \"[\" '\"' \"'\""), CommandCompleteness::Complete);
    assert_eq!(determine_command_completeness("\"'"), CommandCompleteness::OpenDoubleQuote);
    assert_eq!(determine_command_completeness("'\""), CommandCompleteness::OpenSingleQuote);
}

#[test]
fn closing_bracket_without_opening_is_passed_over() {
    assert_eq!(determine_command_completeness(") ] }"), CommandCompleteness::Complete);
    assert_eq!(determine_command_completeness(") ("), CommandCompleteness::OpenParens);
    assert_eq!(determine_command_completeness("(()"), CommandCompleteness::OpenParens);
    assert_eq!(determine_command_completeness("(())"), CommandCompleteness::Complete);
}

#[test]
fn backslash_takes_the_next_character() {
    assert_eq!(determine_command_completeness("\\"), CommandCompleteness::Backslash);
    assert_eq!(determine_command_completeness("a\\\n"), CommandCompleteness::Backslash);
    assert_eq!(determine_command_completeness("a\\\r"), CommandCompleteness::Backslash);
    assert_eq!(determine_command_completeness("a\\\r\n"), CommandCompleteness::Backslash);
    assert_eq!(determine_command_completeness("a\\\nb"), CommandCompleteness::Complete);
    assert_eq!(determine_command_completeness("a\\\r\nb"), CommandCompleteness::Complete);
    assert_eq!(determine_command_completeness("a\\\rb"), CommandCompleteness::Complete);
    assert_eq!(determine_command_completeness("\\'"), CommandCompleteness::Complete);
    assert_eq!(determine_command_completeness("\\("), CommandCompleteness::Complete);
    assert_eq!(determine_command_completeness("\\\\"), CommandCompleteness::Complete);
    assert_eq!(determine_command_completeness("\\\\\\"), CommandCompleteness::Backslash);
    assert_eq!(determine_command_completeness("'\\''"), CommandCompleteness::Complete);
    assert_eq!(determine_command_completeness("'\\'"), CommandCompleteness::OpenSingleQuote);
    assert_eq!(determine_command_completeness("\\\u{e9}("), CommandCompleteness::OpenParens);
    assert_eq!(determine_command_completeness("\\\n("), CommandCompleteness::OpenParens);
    assert_eq!(determine_command_completeness("\\\r'"), CommandCompleteness::OpenSingleQuote);
}

#[test]
fn prompts() {
    assert_eq!(CommandCompleteness::Complete.prompt(), "$ ");
    assert_eq!(CommandCompleteness::OpenDoubleQuote.prompt(), "(dquote)> ");
    assert_eq!(CommandCompleteness::OpenSingleQuote.prompt(), "(quote)> ");
    assert_eq!(CommandCompleteness::OpenParens.prompt(), "(paren)> ");
    assert_eq!(CommandCompleteness::OpenBraces.prompt(), "(brace)> ");
    assert_eq!(CommandCompleteness::OpenBracket.prompt(), "(bracket)> ");
    assert_eq!(CommandCompleteness::Backslash.prompt(), "> ");
}
