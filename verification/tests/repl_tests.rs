use hantemcli::repl::{Type, ReplCommand, split_words};

#[test]
fn type_keywords() {
    assert_eq!(Type::try_from("data"), Ok(Type::Data));
    assert_eq!(Type::try_from("template"), Ok(Type::TemplateRegistry));
    assert_eq!(Type::try_from("templates"), Ok(Type::TemplateRegistry));
    assert_eq!(Type::try_from("tmpl"), Err("No such keyword as tmpl".to_string()));
}

#[test]
fn split_words_on_whitespace() {
    assert_eq!(split_words("  add   data\tx \n"), vec!["add", "data", "x"]);
    assert_eq!(split_words(""), Vec::<String>::new());
    assert_eq!(split_words("   "), Vec::<String>::new());
}

#[test]
fn command_add_collects_paths() {
    match ReplCommand::try_from("add data a.toml b.toml\n") {
        Ok(ReplCommand::Add(Type::Data, paths)) => {
            assert_eq!(paths, vec!["a.toml", "b.toml"]);
        }
        other => panic!("unexpected parse: {:?}", other),
    }
}

#[test]
fn command_add_without_subcommand() {
    assert_eq!(
        ReplCommand::try_from("add").unwrap_err(),
        "No subcommand given.".to_string()
    );
    assert_eq!(
        ReplCommand::try_from("add bogus x").unwrap_err(),
        "No such keyword as bogus".to_string()
    );
}

#[test]
fn command_reset() {
    assert!(matches!(
        ReplCommand::try_from("reset template"),
        Ok(ReplCommand::Reset(Type::TemplateRegistry))
    ));
    assert_eq!(
        ReplCommand::try_from("reset").unwrap_err(),
        "No subcommand given.".to_string()
    );
}

#[test]
fn command_view() {
    match ReplCommand::try_from("view data title") {
        Ok(ReplCommand::View(Type::Data, k)) => assert_eq!(k, "title"),
        other => panic!("unexpected parse: {:?}", other),
    }
    assert_eq!(
        ReplCommand::try_from("view").unwrap_err(),
        "No subcommand given".to_string()
    );
    assert_eq!(
        ReplCommand::try_from("view data").unwrap_err(),
        "No key given.".to_string()
    );
}

#[test]
fn command_render_and_cd() {
    match ReplCommand::try_from("render main") {
        Ok(ReplCommand::Render(k)) => assert_eq!(k, "main"),
        other => panic!("unexpected parse: {:?}", other),
    }
    assert_eq!(
        ReplCommand::try_from("render").unwrap_err(),
        "No key given.".to_string()
    );
    match ReplCommand::try_from("cd /tmp") {
        Ok(ReplCommand::ChangeDirectory(p)) => assert_eq!(p, "/tmp"),
        other => panic!("unexpected parse: {:?}", other),
    }
    assert_eq!(
        ReplCommand::try_from("cd").unwrap_err(),
        "No path given.".to_string()
    );
}

#[test]
fn command_bare_keywords() {
    assert!(matches!(ReplCommand::try_from("pwd"), Ok(ReplCommand::Pwd)));
    assert!(matches!(ReplCommand::try_from("help"), Ok(ReplCommand::Help)));
    assert!(matches!(ReplCommand::try_from("?"), Ok(ReplCommand::Help)));
    assert!(matches!(ReplCommand::try_from("exit\n"), Ok(ReplCommand::Exit)));
}

#[test]
fn command_empty_and_unknown() {
    assert_eq!(
        ReplCommand::try_from("\n").unwrap_err(),
        "No command given.".to_string()
    );
    assert_eq!(
        ReplCommand::try_from("frobnicate x").unwrap_err(),
        "No such keyword as \"frobnicate x\"".to_string()
    );
}
