use mudhuts::autostart::{
    parse_desktop_entry, parse_exec, resolve_entry, select_entries, try_exec, user_autostart_dir,
    which, FieldName, Fields,
};

fn field<'a>(fields: &'a Fields, name: &str) -> Option<&'a String> {
    fields.get(&FieldName(name.to_string()))
}

fn words(list: &[&str]) -> Vec<String> {
    list.iter().map(|w| w.to_string()).collect()
}

#[test]
fn parses_a_desktop_entry_section_ignoring_others() {
    let contents = "[Desktop Entry]\nType=Application\nExec=foo --bar\n\n[Desktop Action New]\nExec=foo --new\n";
    let fields = parse_desktop_entry(contents);
    assert_eq!(field(&fields, "Type"), Some(&"Application".to_string()));
    assert_eq!(field(&fields, "Exec"), Some(&"foo --bar".to_string()));
}

#[test]
fn parse_exec_strips_field_codes_and_splits_words() {
    assert_eq!(
        parse_exec("firefox --new-window %u"),
        Some(vec!["firefox".to_string(), "--new-window".to_string()])
    );
}

#[test]
fn parse_exec_honors_double_quoted_words_with_spaces() {
    assert_eq!(
        parse_exec(r#"sh -c "echo hello world""#),
        Some(vec!["sh".to_string(), "-c".to_string(), "echo hello world".to_string()])
    );
}

#[test]
fn parse_exec_unescapes_percent_percent() {
    assert_eq!(
        parse_exec("prog --format=%%d"),
        Some(vec!["prog".to_string(), "--format=%d".to_string()])
    );
}

#[test]
fn parse_exec_of_only_field_codes_is_none() {
    assert_eq!(parse_exec("%u %f"), None);
}

#[test]
fn a_program_is_tried_in_each_directory_in_turn() {
    assert_eq!(
        which("prog", &words(&["/usr/bin", "/opt/bin"])),
        words(&["/usr/bin/prog", "/opt/bin/prog"])
    );
    assert_eq!(which("/sbin/prog", &words(&["/usr/bin"])), words(&["/sbin/prog"]));
}

#[test]
fn an_entry_is_started_unless_it_says_not_to() {
    let plain = parse_desktop_entry("[Desktop Entry]\nType=Application\nExec=foo --bar\n");
    assert_eq!(resolve_entry(&plain, false), Some(words(&["foo", "--bar"])));
    let link = parse_desktop_entry("[Desktop Entry]\nType=Link\nExec=foo\n");
    assert_eq!(resolve_entry(&link, true), None);
    let hidden = parse_desktop_entry("[Desktop Entry]\nType=Application\nExec=foo\nHidden=true\n");
    assert_eq!(resolve_entry(&hidden, true), None);
    let tried = parse_desktop_entry("[Desktop Entry]\nType=Application\nExec=foo\nTryExec=foo-bin\n");
    assert_eq!(try_exec(&tried), Some(&"foo-bin".to_string()));
    assert_eq!(resolve_entry(&tried, false), None);
    assert_eq!(resolve_entry(&tried, true), Some(words(&["foo"])));
}

#[test]
fn the_first_entry_of_a_name_is_the_one_read() {
    assert_eq!(
        select_entries(&words(&["a.desktop", "notes.txt", "b.desktop", "a.desktop"])),
        vec![true, false, true, false]
    );
}

#[test]
fn the_users_own_entries_come_from_the_configuration_directory() {
    let some = |s: &str| Some(s.to_string());
    assert_eq!(user_autostart_dir(&some("/x"), &None), some("/x/autostart"));
    assert_eq!(user_autostart_dir(&None, &some("/home/u")), some("/home/u/.config/autostart"));
    assert_eq!(user_autostart_dir(&None, &None), None);
}
