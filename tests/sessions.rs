use tmm::{hotkeys, parse_snapshot, App, AppState, CommandOutcome, ExitAction, SessionCommand};

fn names(app: &App) -> Vec<String> {
    app.sessions.iter().map(|(n, _)| n.clone()).collect()
}

fn listing(lines: &[(u64, &str, bool)]) -> String {
    let mut s = String::new();
    for (activity, name, attached) in lines {
        let flag = if *attached { "1" } else { "0" };
        s.push_str(&format!("{}\t{}\t{}\t1 windows\n", activity, name, flag));
    }
    s
}

#[test]
fn parses_well_formed_line() {
    let r = parse_snapshot("17\twork\t1\t2 windows (created today)\n");
    assert_eq!(r.len(), 1);
    assert_eq!(r[0].activity, 17);
    assert_eq!(r[0].name, "work");
    assert!(r[0].attached);
    assert_eq!(r[0].description, ":2 windows (created today)");
}

#[test]
fn malformed_line_is_dropped() {
    let r = parse_snapshot("5\tgood\t0\tdesc\n6\tbad\n");
    assert_eq!(r.len(), 1);
    assert_eq!(r[0].name, "good");
}

#[test]
fn description_keeps_further_tabs() {
    let r = parse_snapshot("1\tn\t0\ta\tb");
    assert_eq!(r.len(), 1);
    assert_eq!(r[0].description, ":a\tb");
}

#[test]
fn activity_that_is_not_a_number_is_zero() {
    let r = parse_snapshot("abc\tx\t0\td\n\ty\t0\td\n18446744073709551616\tz\t0\td\n");
    assert_eq!(r.len(), 3);
    assert!(r.iter().all(|x| x.activity == 0));
}

#[test]
fn activity_reads_plus_sign_and_maximum() {
    let r = parse_snapshot("+42\tx\t0\td\n18446744073709551615\ty\t0\td\n+\tz\t0\td\n");
    assert_eq!(r[0].activity, 42);
    assert_eq!(r[1].activity, u64::MAX);
    assert_eq!(r[2].activity, 0);
}

#[test]
fn attached_only_for_exactly_one() {
    let r = parse_snapshot("1\ta\t1\td\n1\tb\t2\td\n1\tc\t11\td\n1\td\t\td\n");
    let flags: Vec<bool> = r.iter().map(|x| x.attached).collect();
    assert_eq!(flags, vec![true, false, false, false]);
}

#[test]
fn carriage_return_before_newline_is_removed() {
    let r = parse_snapshot("1\ta\t0\tdesc\r\n2\tb\t0\tlast\r");
    assert_eq!(r.len(), 2);
    assert_eq!(r[0].description, ":desc");
    assert_eq!(r[1].description, ":last\r");
}

#[test]
fn empty_snapshot_gives_empty_view() {
    let mut app = App::new();
    app.refresh("");
    assert!(app.current_session.is_none());
    assert!(app.sessions.is_empty());
    assert_eq!(app.selected_session, 0);
    app.refresh("only\ttwo\n\n");
    assert!(app.current_session.is_none());
    assert!(app.sessions.is_empty());
    assert_eq!(app.selected_session, 0);
}

#[test]
fn sorted_by_activity_most_recent_first() {
    let mut app = App::new();
    app.refresh(&listing(&[(10, "old", false), (30, "new", false), (20, "mid", false), (20, "mid2", false)]));
    assert_eq!(names(&app), vec!["new", "mid", "mid2", "old"]);
}

#[test]
fn at_most_one_current() {
    let mut app = App::new();
    app.refresh(&listing(&[(5, "a", true), (9, "b", true), (7, "c", false)]));
    let (cur, desc) = app.current_session.clone().unwrap();
    assert_eq!(cur, "b");
    assert_eq!(desc, ":1 windows");
    assert_eq!(names(&app), vec!["c", "a"]);
}

#[test]
fn selection_follows_reordered_name() {
    let mut app = App::new();
    app.refresh(&listing(&[(3, "a", false), (2, "b", false), (1, "c", false)]));
    app.selected_session = 2;
    app.refresh(&listing(&[(3, "a", false), (2, "b", false), (9, "c", false)]));
    assert_eq!(names(&app), vec!["c", "a", "b"]);
    assert_eq!(app.selected_session, 0);
}

#[test]
fn selection_kept_when_name_gone() {
    let mut app = App::new();
    app.refresh(&listing(&[(3, "a", false), (2, "b", false), (1, "c", false)]));
    app.selected_session = 1;
    app.refresh(&listing(&[(3, "a", false), (1, "c", false), (0, "d", false)]));
    assert_eq!(app.selected_session, 1);
    app.selected_session = 2;
    app.refresh(&listing(&[(3, "a", false)]));
    assert_eq!(app.selected_session, 0);
}

#[test]
fn created_session_is_selected() {
    let mut app = App::new();
    app.refresh(&listing(&[(2, "a", false), (1, "b", false)]));
    let cmd = app.new_session(Some("c")).unwrap();
    assert!(matches!(&cmd, SessionCommand::Create { name } if name == "c"));
    app.finish_command(&cmd, CommandOutcome::Succeeded(listing(&[(2, "a", false), (1, "b", false), (0, "c", false)])));
    assert_eq!(app.sessions[app.selected_session].0, "c");
    assert_eq!(app.state, AppState::Sessions);
}

#[test]
fn renamed_by_multiplexer_is_still_found() {
    let mut app = App::new();
    app.refresh(&listing(&[(2, "a", false), (1, "b", false)]));
    let cmd = app.new_session(Some("8.1")).unwrap();
    app.finish_command(&cmd, CommandOutcome::Succeeded(listing(&[(3, "8_1", false), (2, "a", false), (1, "b", false)])));
    assert_eq!(app.selected_session, 0);
    assert_eq!(app.sessions[0].0, "8_1");
}

#[test]
fn two_new_sessions_leave_selection() {
    let mut app = App::new();
    app.refresh(&listing(&[(2, "a", false)]));
    app.selected_session = 0;
    let cmd = app.new_session(Some("b")).unwrap();
    app.finish_command(&cmd, CommandOutcome::Succeeded(listing(&[(1, "b", false), (0, "c", false), (2, "a", false)])));
    assert_eq!(names(&app), vec!["a", "b", "c"]);
    assert_eq!(app.selected_session, 0);
}

#[test]
fn new_session_without_name_exits() {
    let mut app = App::new();
    assert!(app.new_session(None).is_none());
    assert!(!app.running);
    assert!(matches!(app.on_exit, ExitAction::NewSession));
}

#[test]
fn failed_command_shows_error() {
    let mut app = App::new();
    app.refresh(&listing(&[(2, "a", false)]));
    app.confirm_rename();
    let cmd = app.rename("z").unwrap();
    app.finish_command(&cmd, CommandOutcome::Failed("duplicate session: z".to_string()));
    assert_eq!(app.state, AppState::Sessions);
    assert_eq!(app.error_message.as_deref(), Some("duplicate session: z"));
    assert_eq!(names(&app), vec!["a"]);
    app.dismiss_all();
    assert!(app.error_message.is_none());
}

#[test]
fn rename_targets_selected_or_current() {
    let mut app = App::new();
    app.refresh(&listing(&[(2, "here", true), (1, "other", false)]));
    app.confirm_rename();
    assert!(matches!(app.rename("x"), Some(SessionCommand::Rename { target, new_name }) if target == "other" && new_name == "x"));
    app.confirm_rename_current();
    assert!(app.renaming_current);
    assert!(matches!(app.rename("y"), Some(SessionCommand::Rename { target, .. }) if target == "here"));
    let mut empty = App::new();
    empty.confirm_rename_current();
    assert_eq!(empty.state, AppState::Sessions);
    assert!(empty.rename("y").is_none());
}

#[test]
fn delete_kills_selected_or_reports() {
    let mut app = App::new();
    app.refresh(&listing(&[(2, "a", false), (1, "b", false)]));
    app.selected_session = 1;
    app.confirm_delete();
    assert!(matches!(app.delete(), Some(SessionCommand::Kill { target }) if target == "b"));
    let mut empty = App::new();
    empty.confirm_delete();
    assert!(empty.delete().is_none());
    assert!(empty.error_message.is_some());
    assert_eq!(empty.state, AppState::Sessions);
}

#[test]
fn counter_saturates() {
    let mut app = App::new();
    app.decrement_counter();
    assert_eq!(app.counter, 0);
    for _ in 0..300 {
        app.increment_counter();
    }
    assert_eq!(app.counter, 255);
    app.decrement_counter();
    assert_eq!(app.counter, 254);
}

#[test]
fn widest_name_in_bytes() {
    let mut app = App::new();
    assert_eq!(app.max_session_name_width(), 0);
    app.refresh(&listing(&[(3, "abcdef", true), (2, "é", false), (1, "xyz", false)]));
    assert_eq!(app.max_session_name_width(), 6);
    app.refresh(&listing(&[(3, "ab", true), (2, "ééé", false)]));
    assert_eq!(app.max_session_name_width(), 6);
}

#[test]
fn quit_and_attach() {
    let mut app = App::new();
    app.attach("work".to_string(), true);
    assert!(!app.running);
    assert!(matches!(&app.on_exit, ExitAction::AttachSession(n, true) if n == "work"));
    let mut other = App::new();
    other.quit();
    assert!(!other.running);
    assert!(matches!(other.on_exit, ExitAction::Nothing));
}

#[test]
fn mode_transitions() {
    let mut app = App::new();
    app.search();
    assert_eq!(app.state, AppState::SessionsSearch);
    app.dismiss_all();
    assert_eq!(app.state, AppState::Sessions);
    app.confirm_new_session();
    assert_eq!(app.state, AppState::NewSession);
    app.dismiss_all();
    assert_eq!(app.state, AppState::Sessions);
}

#[test]
fn hotkey_hints_per_mode() {
    let keys: Vec<&str> = hotkeys(&AppState::Sessions).iter().map(|p| p.0).collect();
    assert_eq!(keys, vec!["q", "a", "r", "R", "n", "x", "/"]);
    assert_eq!(hotkeys(&AppState::WarnNested), vec![("q", "Quit"), ("Any", "Dismiss")]);
    assert!(hotkeys(&AppState::NewSession).is_empty());
}
