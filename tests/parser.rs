use simple_shell::parser::{command, Command, ErrorKind, Fail, ParseError, Value};

fn assign(name: &str, v: Value) -> Command {
    Command::Assignment(String::from(name), v)
}

fn failure(pos: usize, kind: ErrorKind) -> Fail {
    Fail::Failure(ParseError { pos, kind })
}

#[test]
fn test_basic() {
    assert_eq!(command("let x = 1"), Ok(("", assign("x", Value::Unsigned(1)))));
    assert_eq!(command("\tquit \n"), Ok(("", Command::Quit)));
    assert_eq!(
        command(" let\t_t_x22=0333 "),
        Ok(("", assign("_t_x22", Value::Unsigned(333))))
    );
    let i = "let t=-3";
    assert_eq!(command(i), Err(failure(6, ErrorKind::InvalidValue)));
    assert_eq!(&i[6..], "-3");
    assert_eq!(command(" \t\n "), Ok(("", Command::Empty)));
}

#[test]
fn test_assignment() {
    assert_eq!(
        command("let str = \"test1\""),
        Ok(("", assign("str", Value::Str(String::from("test1")))))
    );
}

#[test]
fn empty_line_is_empty() {
    assert_eq!(command(""), Ok(("", Command::Empty)));
    assert_eq!(command("\r\n"), Ok(("", Command::Empty)));
}

#[test]
fn quit_needs_the_whole_line() {
    assert_eq!(command("quit"), Ok(("", Command::Quit)));
    assert_eq!(command("  \n quit\t\t"), Ok(("", Command::Quit)));
    assert_eq!(
        command("quitx"),
        Err(Fail::Error(ParseError { pos: 0, kind: ErrorKind::UnrecognizedCommand }))
    );
    assert_eq!(
        command("  quit x"),
        Err(Fail::Error(ParseError { pos: 2, kind: ErrorKind::UnrecognizedCommand }))
    );
}

#[test]
fn unknown_line_is_unrecognized() {
    assert_eq!(
        command(" hello"),
        Err(Fail::Error(ParseError { pos: 1, kind: ErrorKind::UnrecognizedCommand }))
    );
}

#[test]
fn surrounding_whitespace_is_insignificant() {
    assert_eq!(command("  let x=1  "), command("let x = 1"));
    assert_eq!(command("\tlet\nx \t=\r\n1\n"), command("let x = 1"));
}

#[test]
fn leading_zeros_are_decimal() {
    assert_eq!(command("let y = 010"), Ok(("", assign("y", Value::Unsigned(10)))));
    assert_eq!(command("let y = 0000"), Ok(("", assign("y", Value::Unsigned(0)))));
}

#[test]
fn largest_unsigned_is_accepted() {
    assert_eq!(
        command("let m = 4294967295"),
        Ok(("", assign("m", Value::Unsigned(4294967295))))
    );
}

#[test]
fn overflowing_unsigned_is_rejected() {
    assert_eq!(command("let m = 4294967296"), Err(failure(8, ErrorKind::InvalidValue)));
    assert_eq!(command("let m=99999999999999999999"), Err(failure(6, ErrorKind::InvalidValue)));
}

#[test]
fn unterminated_string_fails() {
    assert_eq!(command("let s = \"abc"), Err(failure(12, ErrorKind::UnterminatedString)));
    assert_eq!(command("let s = \"ab c\""), Err(failure(11, ErrorKind::UnterminatedString)));
    assert_eq!(command("let s = \"a\\"), Err(failure(10, ErrorKind::UnterminatedString)));
}

#[test]
fn malformed_escape_fails_at_the_escaped_character() {
    assert_eq!(command("let s = \"a\\qb\""), Err(failure(11, ErrorKind::MalformedEscape)));
}

#[test]
fn escapes_are_kept_as_written() {
    assert_eq!(
        command("let s = \"a\\nb\\\"c\\\\\""),
        Ok(("", assign("s", Value::Str(String::from("a\\nb\\\"c\\\\")))))
    );
    assert_eq!(command("let s = \"\""), Ok(("", assign("s", Value::Str(String::new())))));
}

#[test]
fn let_commits_to_an_assignment() {
    assert_eq!(command("let 1 = 2"), Err(failure(4, ErrorKind::NoMatch)));
    assert_eq!(command("let x 2"), Err(failure(6, ErrorKind::NoMatch)));
    assert_eq!(command("letx=7"), Ok(("", assign("x", Value::Unsigned(7)))));
}

#[test]
fn unread_rest_is_returned() {
    assert_eq!(command("let x = 12abc"), Ok(("abc", assign("x", Value::Unsigned(12)))));
    assert_eq!(command("let x = 1 y "), Ok(("y ", assign("x", Value::Unsigned(1)))));
}

#[test]
fn reparsing_the_rest_gives_the_same_result() {
    let (rest, _) = command("let a = 5 let b = 6").unwrap();
    assert_eq!(rest, "let b = 6");
    assert_eq!(command(rest), command(rest));
    assert_eq!(command(rest), Ok(("", assign("b", Value::Unsigned(6)))));
}

#[test]
fn non_ascii_text_is_handled_by_characters() {
    assert_eq!(
        command("é"),
        Err(Fail::Error(ParseError { pos: 0, kind: ErrorKind::UnrecognizedCommand }))
    );
    assert_eq!(command("let x = 1 é"), Ok(("é", assign("x", Value::Unsigned(1)))));
}
