use envfile::EnvFile;

#[test]
fn test_get() {
    let cont = "\
		    PATH=test:foo:bar\n\
			FOO=foo\n\
			BAR=bar\n\
			BAZ=baz=baz\n\
			FOO=foo2\n\
		";
    let env = EnvFile::parse(cont.as_bytes()).unwrap();

    assert_eq!(env.get_env("None"), None);
    assert_eq!(env.get_env("PATH"), Some("test:foo:bar"));
    assert_eq!(env.get_env("BAZ"), Some("baz=baz"));
    assert_eq!(
        env.get_env("FOO"),
        Some("foo2"),
        "The last value is obtained if the environment has multiple values."
    );
}

#[test]
fn test_put_env_and_save() {
    let cont = "\
            # This is a comment line
		    PATH=test:foo:bar  #comment preserved \n\
            WSL_INTEROP=/run/foo\n\
			FOO=foo\n\
            # This is another comment line
			BAR=bar\n\
			BAZ=baz=baz\n\
            QUOTED1='foo'\n\
            QUOTED2=\"foo\"\n\
			FOO=foo1\n\
		";
    let mut env = EnvFile::parse(cont.as_bytes()).unwrap();

    env.put_env("NEW1".to_owned(), "TO_BE_OVERWRITTEN".to_owned()).unwrap();
    env.put_env(
        "PATH".to_owned(),
        format!("path:{}", env.get_env("PATH").unwrap()),
    )
    .unwrap();
    env.put_env("FOO".to_owned(), "foo2".to_owned()).unwrap();
    env.put_env("FOO".to_owned(), "foo3".to_owned()).unwrap();
    env.put_env("BAR".to_owned(), "bar2".to_owned()).unwrap();
    env.put_env("NEW1".to_owned(), "NEW1".to_owned()).unwrap();
    env.put_env("QUOTED1".to_owned(), "quoted1".to_owned()).unwrap();
    env.put_env("QUOTED2".to_owned(), "quoted2".to_owned()).unwrap();
    env.put_env("WSL_INTEROP".to_owned(), "/run/bar".to_owned()).unwrap();

    assert_eq!(env.get_env("None"), None);
    assert_eq!(env.get_env("NEW1"), Some("'NEW1'"));
    assert_eq!(env.get_env("PATH"), Some("'path:test:foo:bar'"));
    assert_eq!(env.get_env("FOO"), Some("'foo3'"));

    let expected = "\
            # This is a comment line
		    PATH='path:test:foo:bar'  #comment preserved \n\
            WSL_INTEROP='/run/bar'\n\
			FOO=foo\n\
            # This is another comment line
			BAR='bar2'\n\
			BAZ=baz=baz\n\
            QUOTED1='quoted1'\n\
            QUOTED2='quoted2'\n\
			FOO='foo3'\n\
			NEW1='NEW1'\n\
		";
    let new_cont = env.serialize();
    assert_eq!(expected, new_cont);
}

#[test]
fn test_put_path() {
    let cont = "\
            # This is a comment line\n\
            PATH=\"/sbin:/bin\"\n\
			FOO=foo\n\
			BAR=bar\n\
		";
    let mut env = EnvFile::parse(cont.as_bytes()).unwrap();

    env.put_path("/to/path1".to_owned()).unwrap();
    env.put_path("/to/path2".to_owned()).unwrap();
    env.put_path("/sbin".to_owned()).unwrap();

    assert_eq!(
        Some("\"/to/path2:/to/path1:/sbin:/bin\""),
        env.get_env("PATH")
    );

    let expected = "\
            # This is a comment line\n\
            PATH=\"/to/path2:/to/path1:/sbin:/bin\"\n\
			FOO=foo\n\
			BAR=bar\n\
		";
    let new_cont = env.serialize();
    assert_eq!(new_cont, expected);
}

#[test]
fn test_put_path_no_quote() {
    let cont = "\
            # This is a comment line\n\
            PATH=/sbin:/bin\n\
			FOO=foo\n\
			BAR=bar\n\
		";
    let mut env = EnvFile::parse(cont.as_bytes()).unwrap();

    env.put_path("/to/path with space".to_owned()).unwrap();

    let expected = "\
            # This is a comment line\n\
            PATH='/to/path with space':/sbin:/bin\n\
			FOO=foo\n\
			BAR=bar\n\
		";
    let new_cont = env.serialize();
    assert_eq!(new_cont, expected);
}

#[test]
fn test_put_path_strange() {
    let cont = "\
            # This is a comment line\n\
            PATH=/sbin:/bin:\\\n\
            /other/bin  #continued PATH\n\
			FOO=foo\n\
			BAR=bar\n\
		";
    let mut env = EnvFile::parse(cont.as_bytes()).unwrap();

    env.put_path("/to/path with space".to_owned()).unwrap();

    let expected = "\
            # This is a comment line\n\
            PATH='/to/path with space':/sbin:/bin:\\\n\
            /other/bin  #continued PATH\n\
			FOO=foo\n\
			BAR=bar\n\
		";
    let new_cont = env.serialize();
    assert_eq!(new_cont, expected);
}

#[test]
fn test_put_path_to_no_path_file() {
    let cont = "\
            # This is a comment line
			FOO=foo\n\
			BAR=bar\n\
		";
    let mut env = EnvFile::parse(cont.as_bytes()).unwrap();

    env.put_path("/to/path1".to_owned()).unwrap();
    env.put_path("/to/path2".to_owned()).unwrap();

    assert_eq!(Some("'/to/path2:/to/path1:/usr/local/sbin:/usr/local/bin:/usr/sbin:/usr/bin:/sbin:/bin:/usr/games:/usr/local/games'"), env.get_env("PATH"));

    let expected = "\
            # This is a comment line
			FOO=foo\n\
			BAR=bar\n\
            PATH='/to/path2:/to/path1:/usr/local/sbin:/usr/local/bin:/usr/sbin:/usr/bin:/sbin:/bin:/usr/games:/usr/local/games'\n\
		";
    let new_cont = env.serialize();
    assert_eq!(new_cont, expected);
}

#[test]
fn test_empty_env_file() {
    let env = EnvFile::parse("".as_bytes());
    assert!(env.is_ok());

    let mut env = env.unwrap();
    env.put_env("TEST".to_owned(), "VALUE".to_owned()).unwrap();
    let expected = "\
		    TEST='VALUE'\n\
		";
    let new_cont = env.serialize();
    assert_eq!(new_cont, expected);
}

#[test]
fn test_open_nonexistential_env_file() {
    let mut env = EnvFile::new();
    env.put_env("TEST".to_owned(), "VALUE".to_owned()).unwrap();
    let expected = "\
		    TEST='VALUE'\n\
		";
    let new_cont = env.serialize();
    assert_eq!(new_cont, expected);
}
