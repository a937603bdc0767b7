use vault::codec::{decode_line, encode_line, split_content_lines, tokenize, Credential};
use vault::config::{
    run, Action, AddParams, Config, DeleteParams, GetParams, ListParams, Outcome, Params,
};
use vault::store::{add_credential, delete_credential, get_credential, list_credentials};

fn args(words: &[&str]) -> Vec<String> {
    words.iter().map(|w| w.to_string()).collect()
}

fn cred(name: &str, username: &str, password: &str) -> Credential {
    Credential {
        name: name.to_string(),
        username: username.to_string(),
        password: password.to_string(),
    }
}

fn add_params(name: &str, username: &str, password: &str) -> AddParams {
    AddParams {
        name: name.to_string(),
        username: username.to_string(),
        password: password.to_string(),
    }
}

#[test]
fn split_empty_store_is_one_empty_line() {
    assert_eq!(split_content_lines(""), vec![""]);
}

#[test]
fn split_keeps_trailing_empty_line() {
    assert_eq!(
        split_content_lines("a b c\nd e\n"),
        vec!["a b c", "d e", ""]
    );
}

#[test]
fn split_leaves_carriage_return_on_line() {
    assert_eq!(
        split_content_lines("a b c\r\nd"),
        vec!["a b c\r", "d"]
    );
}

#[test]
fn tokenize_collapses_whitespace_runs() {
    assert_eq!(
        tokenize("  alice \t bob\r\n pw  "),
        vec!["alice".to_string(), "bob".to_string(), "pw".to_string()]
    );
    assert!(tokenize("").is_empty());
    assert!(tokenize(" \t ").is_empty());
}

#[test]
fn decode_three_fields() {
    assert_eq!(decode_line("alice bob pw1"), Some(cred("alice", "bob", "pw1")));
}

#[test]
fn decode_ignores_tokens_after_third() {
    assert_eq!(decode_line("alice bob pw1 extra more"), Some(cred("alice", "bob", "pw1")));
}

#[test]
fn decode_under_two_tokens_is_none() {
    assert_eq!(decode_line(""), None);
    assert_eq!(decode_line("lonely"), None);
    assert_eq!(decode_line("   "), None);
}

#[test]
fn decode_treats_carriage_return_as_whitespace() {
    assert_eq!(decode_line("a u p\r"), Some(cred("a", "u", "p")));
    assert_eq!(decode_line("a p\r"), Some(cred("a", "None", "p")));
}

#[test]
fn encode_joins_with_single_spaces() {
    assert_eq!(encode_line("site", "me", "pw"), "site me pw");
    assert_eq!(encode_line("site", "", "pw"), "site  pw");
}

#[test]
fn round_trip_with_username() {
    let line = encode_line("mail", "me@example.org", "hunter2");
    assert_eq!(decode_line(&line), Some(cred("mail", "me@example.org", "hunter2")));
}

#[test]
fn round_trip_without_username_reads_none() {
    let line = encode_line("mail", "", "hunter2");
    assert_eq!(decode_line(&line), Some(cred("mail", "None", "hunter2")));
}

#[test]
fn list_on_empty_store_reports_nothing() {
    assert!(list_credentials("").is_empty());
    assert!(get_credential("", &GetParams("alice".to_string())).is_empty());
}

#[test]
fn list_reports_first_tokens_in_order() {
    let content = "alice x p1\nlonely\n\n  \nbob p2\n";
    assert_eq!(
        list_credentials(content),
        vec!["alice".to_string(), "lonely".to_string(), "bob".to_string()]
    );
}

#[test]
fn add_then_get_agrees() {
    let appended = add_credential(&add_params("alice", "bob", "pw1"));
    assert_eq!(appended, "alice bob pw1\n");
    let found = get_credential(&appended, &GetParams("alice".to_string()));
    assert_eq!(found, vec![cred("alice", "bob", "pw1")]);
}

#[test]
fn add_appends_after_existing_records() {
    let mut content = String::from("zed z pz\n");
    content.push_str(&add_credential(&add_params("alice", "", "pw1")));
    assert_eq!(content, "zed z pz\nalice  pw1\n");
    let found = get_credential(&content, &GetParams("alice".to_string()));
    assert_eq!(found, vec![cred("alice", "None", "pw1")]);
}

#[test]
fn legacy_two_field_get() {
    let found = get_credential("carol secret2", &GetParams("carol".to_string()));
    assert_eq!(found, vec![cred("carol", "None", "secret2")]);
}

#[test]
fn get_reports_every_match_in_order() {
    let content = "dave u1 p1\nerin e pe\ndave u2 p2\n";
    let found = get_credential(content, &GetParams("dave".to_string()));
    assert_eq!(found, vec![cred("dave", "u1", "p1"), cred("dave", "u2", "p2")]);
}

#[test]
fn get_is_case_sensitive_and_skips_one_token_lines() {
    let content = "Dave u1 p1\ndave\n";
    assert!(get_credential(content, &GetParams("dave".to_string())).is_empty());
}

#[test]
fn delete_removes_all_matches() {
    let content = "dave u1 p1\nerin e pe\ndave u2 p2\n";
    let out = delete_credential(content, &DeleteParams("dave".to_string()));
    assert!(out.found);
    assert_eq!(out.content, "erin e pe\n");
    assert!(split_content_lines(&out.content)
        .iter()
        .all(|l| tokenize(l).first().map(|t| t.as_str()) != Some("dave")));
    assert!(!list_credentials(&out.content).contains(&"dave".to_string()));
}

#[test]
fn delete_preserves_others_verbatim() {
    let content = "alice x p1\nbob y p2\n";
    let out = delete_credential(content, &DeleteParams("alice".to_string()));
    assert!(out.found);
    assert_eq!(out.content, "bob y p2\n");
    let found = get_credential(&out.content, &GetParams("bob".to_string()));
    assert_eq!(found, vec![cred("bob", "y", "p2")]);
}

#[test]
fn delete_keeps_malformed_lines_and_drops_empty_ones() {
    let content = "lonely\n\n \t \nalice x p1\nbob   y  p2";
    let out = delete_credential(content, &DeleteParams("alice".to_string()));
    assert!(out.found);
    assert_eq!(out.content, "lonely\n \t \nbob   y  p2\n");
}

#[test]
fn delete_removes_one_token_line_of_that_name() {
    let out = delete_credential("alice\nbob y p2\n", &DeleteParams("alice".to_string()));
    assert!(out.found);
    assert_eq!(out.content, "bob y p2\n");
}

#[test]
fn not_found_get_and_delete() {
    let content = "alice x p1\nbob y p2\n";
    assert!(get_credential(content, &GetParams("ghost".to_string())).is_empty());
    let out = delete_credential(content, &DeleteParams("ghost".to_string()));
    assert!(!out.found);
    assert_eq!(out.content, content);
}

#[test]
fn delete_on_empty_store() {
    let out = delete_credential("", &DeleteParams("ghost".to_string()));
    assert!(!out.found);
    assert_eq!(out.content, "");
}

#[test]
fn usage_add_with_one_parameter() {
    match Config::new(&args(&["vault", "add", "name-only"])) {
        Err(e) => {
            assert_eq!(e.action, Action::Add);
            assert_eq!(e.count, 1);
        }
        Ok(_) => panic!("add with one parameter was accepted"),
    }
}

#[test]
fn usage_add_with_four_parameters() {
    match Config::new(&args(&["vault", "add", "a", "b", "c", "d"])) {
        Err(e) => {
            assert_eq!(e.action, Action::Add);
            assert_eq!(e.count, 4);
        }
        Ok(_) => panic!("add with four parameters was accepted"),
    }
}

#[test]
fn usage_get_and_delete_need_one_parameter() {
    assert!(Config::new(&args(&["vault", "get"])).is_err());
    assert!(Config::new(&args(&["vault", "get", "a", "b"])).is_err());
    assert!(Config::new(&args(&["vault", "delete"])).is_err());
    assert!(Config::new(&args(&["vault", "delete", "a", "b"])).is_err());
}

#[test]
fn config_reads_each_command() {
    let c = Config::new(&args(&["vault", "list"])).ok().unwrap();
    assert_eq!(c.action, Action::List);
    assert!(matches!(c.params, Params::List(ListParams)));

    let c = Config::new(&args(&["vault", "get", "alice"])).ok().unwrap();
    assert_eq!(c.action, Action::Get);
    assert!(matches!(c.params, Params::Get(GetParams(ref n)) if n == "alice"));

    let c = Config::new(&args(&["vault", "delete", "alice"])).ok().unwrap();
    assert_eq!(c.action, Action::Delete);
    assert!(matches!(c.params, Params::Delete(DeleteParams(ref n)) if n == "alice"));

    let c = Config::new(&args(&["vault", "add", "alice", "pw"])).ok().unwrap();
    assert_eq!(c.action, Action::Add);
    match c.params {
        Params::Add(p) => {
            assert_eq!(p.name, "alice");
            assert_eq!(p.username, "");
            assert_eq!(p.password, "pw");
        }
        _ => panic!("add was not read as add"),
    }

    let c = Config::new(&args(&["vault", "add", "alice", "bob", "pw"])).ok().unwrap();
    match c.params {
        Params::Add(p) => {
            assert_eq!(p.name, "alice");
            assert_eq!(p.username, "bob");
            assert_eq!(p.password, "pw");
        }
        _ => panic!("add was not read as add"),
    }
}

#[test]
fn config_unknown_or_missing_command_is_invalid() {
    for words in [vec!["vault"], vec![], vec!["vault", "frobnicate", "x"], vec!["vault", "GET", "a"]] {
        let c = Config::new(&args(&words)).ok().unwrap();
        assert_eq!(c.action, Action::Invalid);
        assert!(matches!(c.params, Params::Invalid(_)));
    }
}

#[test]
fn get_config_enum_names_the_command() {
    assert_eq!(Config::get_config_enum(&args(&["vault", "delete"])), Action::Delete);
    assert_eq!(Config::get_config_enum(&args(&["vault", "list", "x"])), Action::List);
    assert_eq!(Config::get_config_enum(&args(&["vault"])), Action::Invalid);
}

#[test]
fn run_dispatches_each_intent() {
    let content = "alice x p1\nbob y p2\n";
    let c = Config::new(&args(&["vault", "list"])).ok().unwrap();
    match run(&c, content) {
        Outcome::Listed(names) => assert_eq!(names, vec!["alice".to_string(), "bob".to_string()]),
        _ => panic!("list gave another outcome"),
    }
    let c = Config::new(&args(&["vault", "get", "bob"])).ok().unwrap();
    match run(&c, content) {
        Outcome::Found(found) => assert_eq!(found, vec![cred("bob", "y", "p2")]),
        _ => panic!("get gave another outcome"),
    }
    let c = Config::new(&args(&["vault", "add", "carol", "secret2"])).ok().unwrap();
    match run(&c, content) {
        Outcome::Append(text) => assert_eq!(text, "carol  secret2\n"),
        _ => panic!("add gave another outcome"),
    }
    let c = Config::new(&args(&["vault", "delete", "alice"])).ok().unwrap();
    match run(&c, content) {
        Outcome::Rewrite(out) => {
            assert!(out.found);
            assert_eq!(out.content, "bob y p2\n");
        }
        _ => panic!("delete gave another outcome"),
    }
    let c = Config::new(&args(&["vault", "nope"])).ok().unwrap();
    assert!(matches!(run(&c, content), Outcome::Invalid));
}

#[test]
fn non_ascii_text_is_kept() {
    let content = "café ünï pässwörd\n";
    assert_eq!(
        get_credential(content, &GetParams("café".to_string())),
        vec![cred("café", "ünï", "pässwörd")]
    );
    let out = delete_credential("ß a b\ncafé u p\n", &DeleteParams("ß".to_string()));
    assert_eq!(out.content, "café u p\n");
}
