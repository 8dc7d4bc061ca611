use envfile::grammar::{
    declaration_key, declaration_value, following_characters, leading_characters,
};
use envfile::{
    single_quote_str_for_shell, ArgumentError, EnvFile, EnvFileLine, EnvFileLines, EnvStatement,
    ParseError,
};

#[test]
fn test_single_quoting() {
    assert_eq!("''", single_quote_str_for_shell(""));
    assert_eq!("'plain'", single_quote_str_for_shell("plain"));
    assert_eq!("'a b'", single_quote_str_for_shell("a b"));
    assert_eq!("'it'\"'\"'s'", single_quote_str_for_shell("it's"));
    assert_eq!("''\"'\"''\"'\"''", single_quote_str_for_shell("''"));
    assert_eq!("'\"\\$'", single_quote_str_for_shell("\"\\$"));
}

#[test]
fn test_statement_without_name() {
    assert_eq!(Some(ParseError::MissingName), EnvStatement::parse("=value".as_bytes()).err());
    assert_eq!(Some(ParseError::MissingName), EnvStatement::parse("".as_bytes()).err());
    assert_eq!(Some(ParseError::MissingName), EnvStatement::parse("# A=1".as_bytes()).err());
    assert_eq!(Some(ParseError::MissingName), EnvStatement::parse("  export  ".as_bytes()).err());
}

#[test]
fn test_statement_without_equals() {
    assert_eq!(Some(ParseError::MissingEquals), EnvStatement::parse("NAME".as_bytes()).err());
    assert_eq!(Some(ParseError::MissingEquals), EnvStatement::parse("NAME =1".as_bytes()).err());
    assert_eq!(Some(ParseError::MissingEquals), EnvStatement::parse("A-B=1".as_bytes()).err());
    assert_eq!(Some(ParseError::MissingEquals), EnvStatement::parse("A\u{e9}=1".as_bytes()).err());
}

#[test]
fn test_line_of_empty_input() {
    assert_eq!(Some(ParseError::EndOfInput), EnvFileLine::parse("".as_bytes()).err());
}

#[test]
fn test_export_is_never_a_name() {
    // `export` goes to the leading text, so no name is left.
    assert_eq!(Some(ParseError::MissingName), EnvStatement::parse("export=1".as_bytes()).err());
    let (_, line) = EnvFileLine::parse("export=1\n".as_bytes()).unwrap();
    assert!(matches!(line, EnvFileLine::Other(_)));
    assert_eq!("export=1\n", line.serialize());

    let (_, statement) = EnvStatement::parse("exportA=1".as_bytes()).unwrap();
    assert_eq!("export", statement.leading_characters);
    assert_eq!("A", statement.key);

    let (_, statement) = EnvStatement::parse("expor=1".as_bytes()).unwrap();
    assert_eq!("", statement.leading_characters);
    assert_eq!("expor", statement.key);
}

#[test]
fn test_names_hold_letters_digits_and_underscores() {
    let (_, statement) = EnvStatement::parse("aZ_09=x".as_bytes()).unwrap();
    assert_eq!("aZ_09", statement.key);
    let (_, statement) = EnvStatement::parse("\t _=x".as_bytes()).unwrap();
    assert_eq!("\t ", statement.leading_characters);
    assert_eq!("_", statement.key);
    // The bytes next to the letters and digits are no part of a name.
    for other in ["@", "[", "`", "{", "/", ":"] {
        let line = format!("A{}=x", other);
        assert_eq!(Some(ParseError::MissingEquals), EnvStatement::parse(line.as_bytes()).err());
    }
}

#[test]
fn test_value_stops_before_comment_and_trailing_blanks() {
    let (_, statement) = EnvStatement::parse("A=one two\t three  \t# c".as_bytes()).unwrap();
    assert_eq!("one two\t three", statement.value);
    assert_eq!("  \t# c", statement.following_characters);

    let (_, statement) = EnvStatement::parse("A=one#two".as_bytes()).unwrap();
    assert_eq!("one", statement.value);
    assert_eq!("#two", statement.following_characters);
}

#[test]
fn test_value_with_escapes() {
    let (rest, statement) = EnvStatement::parse("A=a\\ b\\#c\\\\ d\nB=1".as_bytes()).unwrap();
    assert_eq!("a\\ b\\#c\\\\ d", statement.value);
    assert_eq!("", statement.following_characters);
    assert_eq!("B=1".as_bytes(), rest);

    // A backslash at the very end escapes nothing and is no part of the value.
    let (_, statement) = EnvStatement::parse("A=a\\".as_bytes()).unwrap();
    assert_eq!("a", statement.value);
    assert_eq!("\\", statement.following_characters);
}

#[test]
fn test_value_with_quotes_inside() {
    let (_, statement) = EnvStatement::parse("A=\"x 'y' z\" # c".as_bytes()).unwrap();
    assert_eq!("\"x 'y' z\"", statement.value);
    assert_eq!(" # c", statement.following_characters);
}

#[test]
fn test_statement_hands_back_the_rest() {
    let (rest, _) = EnvStatement::parse("A=1 # c\nB=2\n".as_bytes()).unwrap();
    assert_eq!("B=2\n".as_bytes(), rest);
    let (rest, _) = EnvStatement::parse("A=1".as_bytes()).unwrap();
    assert!(rest.is_empty());
    let (rest, line) = EnvFileLine::parse("# c\r\nB=2".as_bytes()).unwrap();
    assert_eq!("B=2".as_bytes(), rest);
    assert_eq!("# c\r\n", line.serialize());
}

#[test]
fn test_bytes_that_are_no_text_are_repaired() {
    let (_, statement) = EnvStatement::parse(b"A=\xffz # \xc3".as_slice()).unwrap();
    assert_eq!("\u{fffd}z", statement.value);
    assert_eq!(" # \u{fffd}", statement.following_characters);
    let (_, line) = EnvFileLine::parse(b"\xe2\x82\n".as_slice()).unwrap();
    assert_eq!("\u{fffd}\n", line.serialize());
}

#[test]
fn test_text_beyond_ascii_is_decoded() {
    let (_, statement) = EnvStatement::parse("A=\u{e9}\u{20ac}".as_bytes()).unwrap();
    assert_eq!("\u{e9}\u{20ac}", statement.value);
    assert_eq!(2, statement.value.chars().count());
}

#[test]
fn test_scanners() {
    let line = " \texport  NAME=a b  # c\nnext".as_bytes();
    let name_start = leading_characters(line);
    assert_eq!(10, name_start);
    let name_end = declaration_key(line, name_start).unwrap();
    assert_eq!(14, name_end);
    let value_end = declaration_value(line, name_end + 1);
    assert_eq!(18, value_end);
    let text_end = following_characters(line, value_end);
    assert_eq!(23, text_end);

    assert_eq!(6, leading_characters("export".as_bytes()));
    assert_eq!(2, leading_characters("  expor t".as_bytes()));
    assert_eq!(Err(ParseError::MissingName), declaration_key("=".as_bytes(), 0));
    assert_eq!(Err(ParseError::MissingName), declaration_key("A".as_bytes(), 1));
    assert_eq!(0, declaration_value(" a".as_bytes(), 0));
    assert_eq!(3, following_characters("abc".as_bytes(), 1));
}

#[test]
fn test_unsafe_value_is_refused() {
    let mut env = EnvFile::parse("A=a\n".as_bytes()).unwrap();
    assert_eq!(
        Err(ArgumentError::UnsafeValue),
        env.put_env("A".to_owned(), "one\ntwo".to_owned())
    );
    assert_eq!(
        Err(ArgumentError::UnsafeValue),
        env.put_env("A".to_owned(), "back\\slash".to_owned())
    );
    assert_eq!("A=a\n", env.serialize());
    assert_eq!(Ok(()), env.put_env("A".to_owned(), "it's \"fine\" #".to_owned()));
    assert_eq!("A='it'\"'\"'s \"fine\" #'\n", env.serialize());
}

#[test]
fn test_unsafe_directory_is_refused() {
    let mut env = EnvFile::parse("PATH=/bin\n".as_bytes()).unwrap();
    for dir in ["/a\"b", "/a'b", "/a\\b", "/a\nb"] {
        assert_eq!(Err(ArgumentError::UnsafeDirectory), env.put_path(dir.to_owned()));
    }
    assert_eq!("PATH=/bin\n", env.serialize());
    assert_eq!(Ok(()), env.put_path("/opt/my tools".to_owned()));
    assert_eq!("PATH='/opt/my tools':/bin\n", env.serialize());
}

#[test]
fn test_put_path_reads_the_last_path_line() {
    let mut env = EnvFile::parse("PATH=/first\nPATH=\"/x:/y\" # keep\n".as_bytes()).unwrap();
    env.put_path("/z".to_owned()).unwrap();
    env.put_path("/x".to_owned()).unwrap();
    assert_eq!("PATH=/first\nPATH=\"/z:/x:/y\" # keep\n", env.serialize());
}

#[test]
fn test_file_made_of_lines() {
    let (_, lines) = EnvFileLines::parse("A=1\n# c\nA=2\n".as_bytes()).unwrap();
    let env = EnvFile::from_lines(lines);
    assert_eq!(Some("2"), env.get_env("A"));
    assert_eq!("A=1\n# c\nA=2\n", env.serialize());
    assert_eq!("", EnvFile::from_lines(EnvFileLines::default()).serialize());
}
