use dotenv_loader::{config_from_text, is_dotenv_path, resolve_path, split_line, EnvTable, Parser};
use std::io::{Error, ErrorKind};

fn read_ok(text: &str) -> Result<String, Error> {
    Ok(text.to_string())
}

fn value_of(env: &EnvTable, key: &str) -> Option<String> {
    env.get(key).cloned()
}

#[test]
fn load_dotenv_file() {
    let mut parser = Parser::new();
    let mut env = EnvTable::new();
    assert_eq!(resolve_path(".env"), ".env");
    let res = parser.parse(read_ok("GMAPS_API_KEY=abc123"), &mut env);

    assert!(res.is_ok())
}

#[test]
fn set_variables() {
    let mut parser = Parser::new();
    let mut env = EnvTable::new();
    let _ = parser.parse(read_ok("GMAPS_API_KEY=abc123"), &mut env);

    assert!(parser.set_variables.len() == 1);
    assert!(parser.set_variables.contains(&"GMAPS_API_KEY".to_string()));
    assert_eq!(value_of(&env, "GMAPS_API_KEY"), Some("abc123".to_string()));
}

#[test]
fn malformed_line_is_skipped() {
    let mut parser = Parser::new();
    let mut env = EnvTable::new();
    let res = parser.parse(read_ok("A=1\nB=2\nmalformed_line\nC=3"), &mut env);
    assert!(res.is_ok());
    assert_eq!(env.len(), 3);
    assert_eq!(value_of(&env, "A"), Some("1".to_string()));
    assert_eq!(value_of(&env, "B"), Some("2".to_string()));
    assert_eq!(value_of(&env, "C"), Some("3".to_string()));
    assert!(!env.contains_key("malformed_line"));
    assert_eq!(parser.set_variables.len(), 3);
}

#[test]
fn read_error_leaves_everything_unchanged() {
    let mut parser = Parser::new();
    let mut env = EnvTable::new();
    env.set("KEEP".to_string(), "x".to_string());
    let res = parser.parse(Err(Error::new(ErrorKind::NotFound, "no such file")), &mut env);
    match res {
        Err(e) => assert_eq!(e.kind(), ErrorKind::NotFound),
        Ok(()) => panic!("a failed read must be reported"),
    }
    assert_eq!(env.len(), 1);
    assert_eq!(value_of(&env, "KEEP"), Some("x".to_string()));
    assert!(parser.set_variables.is_empty());
}

#[test]
fn read_error_after_a_load_keeps_recorded_keys() {
    let mut parser = Parser::new();
    let mut env = EnvTable::new();
    parser.parse(read_ok("A=1"), &mut env).unwrap();
    let res = parser.parse(Err(Error::new(ErrorKind::PermissionDenied, "denied")), &mut env);
    assert!(res.is_err());
    assert_eq!(parser.set_variables, vec!["A".to_string()]);
    assert_eq!(value_of(&env, "A"), Some("1".to_string()));
}

#[test]
fn every_pair_line_sets_its_value() {
    let mut parser = Parser::new();
    let mut env = EnvTable::new();
    parser.parse(read_ok("HOST=localhost\nPORT=8080\nMODE=dev"), &mut env).unwrap();
    assert_eq!(value_of(&env, "HOST"), Some("localhost".to_string()));
    assert_eq!(value_of(&env, "PORT"), Some("8080".to_string()));
    assert_eq!(value_of(&env, "MODE"), Some("dev".to_string()));
}

#[test]
fn later_line_overrides_earlier() {
    let mut parser = Parser::new();
    let mut env = EnvTable::new();
    parser.parse(read_ok("K=first\nK=second"), &mut env).unwrap();
    assert_eq!(env.len(), 1);
    assert_eq!(value_of(&env, "K"), Some("second".to_string()));
    assert_eq!(parser.set_variables, vec!["K".to_string()]);
}

#[test]
fn text_after_second_separator_is_dropped() {
    let mut parser = Parser::new();
    let mut env = EnvTable::new();
    parser.parse(read_ok("URL=a=b=c"), &mut env).unwrap();
    assert_eq!(value_of(&env, "URL"), Some("a".to_string()));
}

#[test]
fn no_trimming_and_empty_parts() {
    let mut parser = Parser::new();
    let mut env = EnvTable::new();
    parser.parse(read_ok(" SPACED = v \n=novalue\nEMPTY=\n"), &mut env).unwrap();
    assert_eq!(value_of(&env, " SPACED "), Some(" v ".to_string()));
    assert_eq!(value_of(&env, ""), Some("novalue".to_string()));
    assert_eq!(value_of(&env, "EMPTY"), Some("".to_string()));
    assert_eq!(env.len(), 3);
}

#[test]
fn lines_without_separator_set_nothing() {
    let mut parser = Parser::new();
    let mut env = EnvTable::new();
    let res = parser.parse(read_ok("just text\n\n# comment\nanother"), &mut env);
    assert!(res.is_ok());
    assert_eq!(env.len(), 0);
    assert!(parser.set_variables.is_empty());
}

#[test]
fn carriage_return_stays_in_value() {
    let mut parser = Parser::new();
    let mut env = EnvTable::new();
    parser.parse(read_ok("A=1\r\nB=2"), &mut env).unwrap();
    assert_eq!(value_of(&env, "A"), Some("1\r".to_string()));
}

#[test]
fn empty_file_sets_nothing() {
    let mut parser = Parser::new();
    let mut env = EnvTable::new();
    assert!(parser.parse(read_ok(""), &mut env).is_ok());
    assert_eq!(env.len(), 0);
}

#[test]
fn other_variables_are_kept() {
    let mut parser = Parser::new();
    let mut env = EnvTable::new();
    env.set("PATH".to_string(), "/bin".to_string());
    env.set("A".to_string(), "old".to_string());
    parser.parse(read_ok("A=new"), &mut env).unwrap();
    assert_eq!(value_of(&env, "PATH"), Some("/bin".to_string()));
    assert_eq!(value_of(&env, "A"), Some("new".to_string()));
    assert_eq!(parser.set_variables, vec!["A".to_string()]);
}

#[test]
fn parsing_twice_gives_the_same_environment() {
    let text = "A=1\nB=2\nA=3\nnoise";
    let mut once = EnvTable::new();
    let mut twice = EnvTable::new();
    let mut p1 = Parser::new();
    let mut p2 = Parser::new();
    p1.parse(read_ok(text), &mut once).unwrap();
    p2.parse(read_ok(text), &mut twice).unwrap();
    p2.parse(read_ok(text), &mut twice).unwrap();
    assert_eq!(once.len(), twice.len());
    for (k, v) in once.entries() {
        assert_eq!(twice.get(k), Some(v));
    }
    assert_eq!(p1.set_variables.len(), p2.set_variables.len());
}

#[test]
fn recorded_keys_are_those_of_the_last_load() {
    let mut parser = Parser::new();
    let mut env = EnvTable::new();
    parser.parse(read_ok("A=1\nB=2"), &mut env).unwrap();
    parser.parse(read_ok("C=3"), &mut env).unwrap();
    assert_eq!(parser.set_variables, vec!["C".to_string()]);
    assert_eq!(env.len(), 3);
}

#[test]
fn path_without_dotenv_suffix_falls_back() {
    assert_eq!(resolve_path("config.txt"), ".env");
    assert_eq!(resolve_path(""), ".env");
    assert_eq!(resolve_path("env"), ".env");
    assert_eq!(resolve_path(".env.local"), ".env");
    assert!(!is_dotenv_path("settings"));
    assert_eq!(resolve_path("conf/.env/.."), ".env");
    assert_eq!(resolve_path("conf/.env.bak/"), ".env");
    assert_eq!(resolve_path("/"), ".env");
}

#[test]
fn trailing_separator_keeps_dotenv_path() {
    assert_eq!(resolve_path("conf/.env/"), "conf/.env/");
    assert_eq!(resolve_path("conf/.env/."), "conf/.env/.");
    assert_eq!(resolve_path("conf/.env//./"), "conf/.env//./");
    assert_eq!(resolve_path("prod.env/"), "prod.env/");
    assert!(is_dotenv_path(".env/"));
}

#[test]
fn path_with_dotenv_suffix_is_kept() {
    assert_eq!(resolve_path(".env"), ".env");
    assert_eq!(resolve_path("dir/.env"), "dir/.env");
    assert_eq!(resolve_path("prod.env"), "prod.env");
    assert!(is_dotenv_path("/srv/app/.env"));
}

#[test]
fn split_line_cases() {
    assert_eq!(split_line("K=V"), Some(("K".to_string(), "V".to_string())));
    assert_eq!(split_line("K=V=W"), Some(("K".to_string(), "V".to_string())));
    assert_eq!(split_line("clé=välue"), Some(("clé".to_string(), "välue".to_string())));
    assert_eq!(split_line("no separator"), None);
    assert_eq!(split_line(""), None);
}

#[test]
fn config_from_text_builds_mapping() {
    let table = config_from_text("X=1\nY=2\nX=9\nbad");
    assert_eq!(table.len(), 2);
    assert_eq!(value_of(&table, "X"), Some("9".to_string()));
    assert_eq!(value_of(&table, "Y"), Some("2".to_string()));
}

#[test]
fn table_set_get_and_replace() {
    let mut env = EnvTable::new();
    assert_eq!(env.len(), 0);
    assert!(env.get("A").is_none());
    env.set("A".to_string(), "1".to_string());
    env.set("B".to_string(), "2".to_string());
    env.set("A".to_string(), "3".to_string());
    assert_eq!(env.len(), 2);
    assert!(env.contains_key("B"));
    assert_eq!(value_of(&env, "A"), Some("3".to_string()));
    assert_eq!(env.entries().len(), 2);
}
