use envfile::EnvShellScript;

#[test]
fn test_simple_env_shell_script() {
    let mut env_shell_script = EnvShellScript::new();
    env_shell_script.put_env("var1".to_owned(), "val1".to_owned());
    env_shell_script.put_env("var2".to_owned(), "val2".to_owned());
    env_shell_script.put_env("var_space".to_owned(), "value with space".to_owned());
    env_shell_script.put_env("var2".to_owned(), "val2 again".to_owned());

    env_shell_script.put_path("/path/to/somewhere".to_owned(), true);
    env_shell_script.put_path("/path/with space/somewhere".to_owned(), true);
    env_shell_script.put_path("/path/to/somewhere".to_owned(), false);
    env_shell_script.put_path("/less_prio/path".to_owned(), false);

    let script = env_shell_script.gen_shell_script();
    assert_eq!(
        "if [ -z \"${var1:-}\" ]; then export var1='val1'; fi\n\
         if [ -z \"${var2:-}\" ]; then export var2='val2 again'; fi\n\
         if [ -z \"${var_space:-}\" ]; then export var_space='value with space'; fi\n\
         __CANDIDATE_PATH='/less_prio/path'\n\
         __COLON_PATH=\":${PATH}:\"\n\
         if [ \"${__COLON_PATH#*:${__CANDIDATE_PATH}:}\" = \"${__COLON_PATH}\" ]; then export PATH=\"${PATH}:${__CANDIDATE_PATH}\"; fi\n\
         unset __CANDIDATE_PATH\n\
         unset __COLON_PATH\n\
         __CANDIDATE_PATH='/path/to/somewhere'\n\
         __COLON_PATH=\":${PATH}:\"\n\
         if [ \"${__COLON_PATH#*:${__CANDIDATE_PATH}:}\" = \"${__COLON_PATH}\" ]; then export PATH=\"${PATH}:${__CANDIDATE_PATH}\"; fi\n\
         unset __CANDIDATE_PATH\n\
         unset __COLON_PATH\n\
         __CANDIDATE_PATH='/path/with space/somewhere'\n\
         __COLON_PATH=\":${PATH}:\"\n\
         if [ \"${__COLON_PATH#*:${__CANDIDATE_PATH}:}\" = \"${__COLON_PATH}\" ]; then export PATH=\"${__CANDIDATE_PATH}:${PATH}\"; fi\n\
         unset __CANDIDATE_PATH\n\
         unset __COLON_PATH\n",
        &script
    );
}
