//! The commands of the client.

use goat_db::commands::{get_answer, parse_command, split_words, Command};

fn refused(answer: &str) -> Command {
    Command::Refused { answer: answer.to_string() }
}

#[test]
fn commands_are_read() {
    assert_eq!(
        parse_command("put key value\n"),
        Command::Put { key: "key".to_string(), value: "value".to_string() }
    );
    assert_eq!(parse_command("  get   key  "), Command::Get { key: "key".to_string() });
    assert_eq!(parse_command("exit"), Command::Exit);
    assert_eq!(parse_command("quit now"), Command::Exit);
    assert_eq!(parse_command(" \t\r\n"), Command::Blank);
    assert_eq!(parse_command(""), Command::Blank);
}

#[test]
fn incomplete_and_unknown_commands_are_answered() {
    assert_eq!(parse_command("put key"), refused("Usage: put <key> <value>"));
    assert_eq!(parse_command("get"), refused("Usage: get <key>"));
    assert_eq!(parse_command("PUT a b"), refused("Unknown command: PUT"));
}

#[test]
fn words_are_split_as_by_std() {
    for line in ["a b", " a\u{3000}b\u{a0}c ", "x\u{85}y\u{2028}z", "", "\u{200b}one word"] {
        let expected: Vec<&str> = line.split_whitespace().collect();
        assert_eq!(split_words(line), expected);
    }
    for c in (0u32..0x3100).filter_map(char::from_u32) {
        let line = format!("a{}b", c);
        let expected: Vec<&str> = line.split_whitespace().collect();
        assert_eq!(split_words(&line), expected);
    }
}

#[test]
fn values_are_shown_even_where_they_are_no_text() {
    assert_eq!(get_answer(Some(b"abc")), "Value: abc");
    assert_eq!(get_answer(Some(b"a\xFFc")), "Value: a\u{FFFD}c");
    assert_eq!(get_answer(None), "Key not found");
}
