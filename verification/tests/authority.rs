use std::collections::HashMap;

use mudhuts::authority::{parse_args, parse_rule, ArgError, Helper, Role, Tag, ToplevelEvent};

fn args(list: &[&str]) -> Vec<String> {
    list.iter().map(|a| a.to_string()).collect()
}

/// A window is announced, with all that there is to say of it.
fn announce(helper: &mut Helper, id: u64, identifier: &str, app_id: &str) -> Option<Tag> {
    assert!(helper.event(id, ToplevelEvent::AppId(app_id.to_string())).is_none());
    assert!(helper.event(id, ToplevelEvent::Identifier(identifier.to_string())).is_none());
    helper.event(id, ToplevelEvent::Done)
}

fn helper(authenticated: bool, rules: &[&str]) -> Helper {
    let rules = parse_args(&args(rules)).ok().unwrap();
    Helper { authenticated, rules, toplevels: HashMap::new() }
}

#[test]
fn a_rule_names_a_target_and_its_main_window() {
    let rule = parse_rule(Role::Sub, "tools:editor").unwrap();
    assert_eq!((rule.target_app_id.as_str(), rule.main_app_id.as_str()), ("tools", "editor"));
    assert!(parse_rule(Role::Sub, "tools").is_none());
}

#[test]
fn arguments_are_rules_or_errors() {
    let rules = parse_args(&args(&["--sub", "a:b", "--alert", "c:b"])).ok().unwrap();
    assert_eq!(rules.len(), 2);
    assert!(matches!(rules[0].role, Role::Sub));
    assert!(matches!(rules[1].role, Role::Alert));
    assert!(matches!(parse_args(&args(&["--sub", "a:b", "--what"])), Err(ArgError::Unrecognized(2))));
    assert!(matches!(parse_args(&args(&["--alert"])), Err(ArgError::MissingRule(0))));
    assert!(matches!(parse_args(&args(&["--alert", "ab"])), Err(ArgError::BadRule(_))));
}

#[test]
fn a_window_is_tagged_once_its_main_window_is_there() {
    let mut helper = helper(true, &["--sub", "tools:editor"]);
    assert!(announce(&mut helper, 1, "t1", "tools").is_none());
    assert!(announce(&mut helper, 2, "e1", "editor").is_none(), "the first one is not looked at again");
    let tag = announce(&mut helper, 3, "t2", "tools").unwrap();
    assert_eq!((tag.identifier.as_str(), tag.main_identifier.as_str()), ("t2", "e1"));
    assert!(matches!(tag.role, Role::Sub));
    assert!(helper.event(2, ToplevelEvent::Closed).is_none());
    assert!(announce(&mut helper, 4, "t3", "tools").is_none());
}

#[test]
fn a_window_is_only_ever_tagged_once() {
    let mut helper = helper(true, &["--alert", "tools:editor", "--sub", "tools:editor"]);
    announce(&mut helper, 1, "e1", "editor");
    let tag = announce(&mut helper, 2, "t1", "tools").unwrap();
    assert!(matches!(tag.role, Role::Alert), "the first rule that applies");
    assert!(helper.event(2, ToplevelEvent::Done).is_none());
    assert!(announce(&mut helper, 2, "t1", "tools").is_none());
}

#[test]
fn a_window_without_a_name_is_neither_tagged_nor_a_main_window() {
    let mut helper = helper(true, &["--sub", "tools:editor"]);
    helper.event(1, ToplevelEvent::AppId("editor".to_string()));
    helper.event(1, ToplevelEvent::Done);
    assert!(announce(&mut helper, 2, "t1", "tools").is_none());
    helper.event(1, ToplevelEvent::Identifier("e1".to_string()));
    assert_eq!(helper.event(2, ToplevelEvent::Done).unwrap().main_identifier, "e1");
    helper.event(3, ToplevelEvent::AppId("tools".to_string()));
    assert!(helper.event(3, ToplevelEvent::Done).is_none());
}

#[test]
fn nothing_is_tagged_before_authenticating() {
    let mut helper = helper(false, &["--sub", "tools:editor"]);
    announce(&mut helper, 2, "e1", "editor");
    assert!(announce(&mut helper, 3, "t2", "tools").is_none());
}
