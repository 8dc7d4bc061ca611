use envfile::PathVariable;

#[test]
fn test_simple_variable() {
    let path_value = "/usr/local/bin:/usr/bin:/sbin:/bin";
    let mut path = PathVariable::parse(path_value);
    assert_eq!(path_value, path.serialize().as_str());

    path.put_path("/new/path1/bin");
    path.put_path("/new/path2/bin");
    path.put_path("/new/path2/bin"); // Put the same path again
    assert_eq!(
        format!("'/new/path2/bin':'/new/path1/bin':{}", path_value),
        path.serialize()
    );

    assert_eq!(
        vec![
            "/new/path2/bin",
            "/new/path1/bin",
            "/usr/local/bin",
            "/usr/bin",
            "/sbin",
            "/bin"
        ],
        path.iter().collect::<Vec<&str>>()
    );
}

#[test]
fn test_add_existing_value() {
    let path_value = "/usr/local/bin:/usr/bin:/sbin:/bin";
    let mut path = PathVariable::parse(path_value);
    assert_eq!(path_value, path.serialize().as_str());
    path.put_path("/usr/local/bin");
    assert_eq!("/usr/local/bin:/usr/bin:/sbin:/bin", path.serialize());

    let path_value = "'/usr/local/bin:/usr/bin:/sbin:/bin'";
    let mut path = PathVariable::parse(path_value);
    assert_eq!(path_value, path.serialize().as_str());
    path.put_path("/usr/local/bin");
    assert_eq!("'/usr/local/bin:/usr/bin:/sbin:/bin'", path.serialize());
}

#[test]
fn test_quoted_variable() {
    // quoted simple value
    let path_value = "\"/usr/local/bin:/usr/bin:/sbin:/bin\"";
    let mut path = PathVariable::parse(path_value);
    assert_eq!(path_value, path.serialize());
    assert_eq!(
        vec!["/usr/local/bin", "/usr/bin", "/sbin", "/bin"],
        path.iter().collect::<Vec<&str>>()
    );

    path.put_path("/new/path1/bin");
    path.put_path("/new/path2/bin");
    assert_eq!(
        format!(
            "\"/new/path2/bin:/new/path1/bin:{}\"",
            &path_value[1..path_value.len() - 1]
        ),
        path.serialize()
    );

    // single quote
    let path_value = "'/usr/local/bin:/usr/bin:/sbin:/bin'";
    let mut path = PathVariable::parse(path_value);
    path.put_path("/new/path1/bin");
    assert_eq!(
        "'/new/path1/bin:/usr/local/bin:/usr/bin:/sbin:/bin'",
        path.serialize()
    );
    assert_eq!(
        vec![
            "/new/path1/bin",
            "/usr/local/bin",
            "/usr/bin",
            "/sbin",
            "/bin"
        ],
        path.iter().collect::<Vec<&str>>()
    );
}

#[test]
fn test_value_not_quoted_as_a_whole() {
    let path_value = "\"/mnt/c/Program Files/foo\":/usr/local/bin:/usr/bin:/sbin:/bin";
    let path = PathVariable::parse(path_value);
    assert_eq!(path_value, path.serialize());

    assert_eq!(
        vec![
            "\"/mnt/c/Program Files/foo\"",
            "/usr/local/bin",
            "/usr/bin",
            "/sbin",
            "/bin",
        ],
        path.iter().collect::<Vec<&str>>()
    );

    let path_value = "/usr/local/bin:/usr/bin:/sbin:/bin:\"/mnt/c/Program Files/foo\"";
    let path = PathVariable::parse(path_value);
    assert_eq!(path_value, path.serialize());

    assert_eq!(
        vec![
            "/usr/local/bin",
            "/usr/bin",
            "/sbin",
            "/bin",
            "\"/mnt/c/Program Files/foo\"",
        ],
        path.iter().collect::<Vec<&str>>()
    );

    let path_value = "\"/usr/local/bin\":/usr/bin:/sbin:/bin:\"/mnt/c/Program Files/foo\"";
    let path = PathVariable::parse(path_value);
    assert_eq!(path_value, path.serialize());

    assert_eq!(
        vec![
            "\"/usr/local/bin\"",
            "/usr/bin",
            "/sbin",
            "/bin",
            "\"/mnt/c/Program Files/foo\"",
        ],
        path.iter().collect::<Vec<&str>>()
    );

    // quoted single value is treated as "a value the first value of which is quoted", so it's not
    // quoted "as a whole"
    let path_value = "\"/bin\"";
    let mut path = PathVariable::parse(path_value);
    assert_eq!(path_value, path.serialize());

    assert_eq!(vec!["\"/bin\""], path.iter().collect::<Vec<&str>>());

    path.put_path("/new/path1/space bin");
    path.put_path("/new/path2/bin");
    assert_eq!(
        "'/new/path2/bin':'/new/path1/space bin':\"/bin\"",
        path.serialize()
    );

    // Don't support too tricky values
    let path_value =
        "\"/mnt/c/Program Files\"/foo:/usr/bin:/sbin:/bin:/some/path/include/quote\\\"";
    let mut path = PathVariable::parse(path_value);
    path.put_path("/usr/local/bin");
    assert_ne!("'/usr/local/bin':\"/mnt/c/Program Files\"/foo:/usr/bin:/sbin:/bin:/some/path/include/quote\\\"", path.serialize());
}
