use fkill::app::{Action, App, Key, KeyInput, Mode};
use fkill::ps::parse_ps;

const LISTING: &str = "    1 0 root 0.0 0.1 10:00:00 0:01.50 /sbin/launchd\n  100 1 alice 0.0 0.1 05:00:00 0:01.50 /nonexistent/Terminal\n  200 100 alice 0.0 0.1 04:00:00 0:01.50 -zsh\n  300 200 alice 1.5 2.0 03:00:00 0:01.50 /nonexistent/fkill\n  400 1 alice 0.0 0.5 02:00:00 0:01.50 /nonexistent/Chrome --type=browser\n  410 400 alice 12.0 3.0 01:00:00 0:01.50 /nonexistent/Chrome Helper --type=renderer\n  420 400 alice 0.0 1.0 01:00:00 0:01.50 /nonexistent/Chrome Helper --type=gpu\n  500 1 bob 0.0 0.1 01:00:00 0:01.50 /nonexistent/other\n";

fn browser() -> App {
    let mut app = App::new();
    app.refresh(parse_ps(LISTING, false, "alice"), 300, 0);
    app
}

fn key(k: Key) -> KeyInput {
    KeyInput { key: k, ctrl: false, ctrl_only: false, press: true }
}

fn ctrl(c: char) -> KeyInput {
    KeyInput { key: Key::Char(c), ctrl: true, ctrl_only: true, press: true }
}

fn type_text(app: &mut App, s: &str) {
    for c in s.chars() {
        assert!(matches!(app.handle_key(key(Key::Char(c))), Action::Nothing));
    }
}

fn pids(app: &App) -> Vec<i32> {
    app.visible.iter().map(|r| r.pid).collect()
}

fn flags(app: &App) -> Vec<(i32, bool, bool)> {
    app.visible.iter().map(|r| (r.pid, r.killable, r.protected)).collect()
}

#[test]
fn tree_rows_are_drawn_under_their_parents() {
    let app = browser();
    let rows: Vec<(i32, String)> = app.full_rows.clone();
    assert_eq!(
        rows,
        vec![
            (100, "Terminal".to_string()),
            (200, "└── -zsh".to_string()),
            (300, "    └── fkill".to_string()),
            (400, "Chrome".to_string()),
            (410, "├── Chrome".to_string()),
            (420, "└── Chrome".to_string()),
        ]
    );
}

#[test]
fn only_the_users_processes_are_listed() {
    let app = browser();
    assert_eq!(app.procs.len(), 6);
    assert!(!app.procs.contains_key(1));
    assert!(!app.procs.contains_key(500));
    let p = app.procs.get(410).unwrap();
    assert_eq!(p.ppid, 400);
    assert_eq!(p.user, "alice");
    assert_eq!(p.cpu, "12.0");
    assert_eq!(p.mem, "3.0");
    assert_eq!(p.etime, "01:00:00");
    assert_eq!(p.command, "/nonexistent/Chrome Helper --type=renderer");
    assert_eq!(p.name, "Chrome");
    assert_eq!(p.own, "410 Chrome");
}

#[test]
fn root_lists_every_user() {
    let procs = parse_ps(LISTING, true, "");
    assert_eq!(procs.len(), 8);
    assert_eq!(procs.entry(0).pid, 1);
    assert_eq!(procs.entry(7).pid, 500);
}

#[test]
fn search_texts_cover_the_subtree() {
    let app = browser();
    assert_eq!(app.procs.get(100).unwrap().search, "100 Terminal 200 -zsh 300 fkill");
    assert_eq!(app.procs.get(400).unwrap().search, "400 Chrome 410 Chrome 420 Chrome");
    assert_eq!(app.procs.get(420).unwrap().search, "420 Chrome");
}

#[test]
fn the_session_chain_is_protected() {
    let app = browser();
    let mut prot: Vec<i32> = app.protected.iter().copied().collect();
    prot.sort();
    assert_eq!(prot, vec![100, 200, 300]);
}

#[test]
fn empty_search_shows_every_row_in_tree_order() {
    let app = browser();
    assert_eq!(
        flags(&app),
        vec![
            (100, false, true),
            (200, false, true),
            (300, false, true),
            (400, true, false),
            (410, true, false),
            (420, true, false),
        ]
    );
    assert_eq!(app.cursor, 3);
    assert_eq!(app.cursor_pid, 400);
}

#[test]
fn parents_are_shown_with_their_matches() {
    let mut app = browser();
    type_text(&mut app, "410");
    assert_eq!(flags(&app), vec![(400, false, false), (410, true, false)]);
    assert_eq!(app.cursor_pid, 400);
    assert_eq!(app.cursor, 0);
}

#[test]
fn lowercase_terms_ignore_case() {
    let mut app = browser();
    type_text(&mut app, "chrome");
    assert_eq!(pids(&app), vec![400, 410, 420]);
    assert!(app.visible.iter().all(|r| r.killable));
}

#[test]
fn uppercase_terms_match_case() {
    let mut app = browser();
    type_text(&mut app, "CHROME");
    assert!(app.visible.is_empty());
    assert_eq!(app.cursor, 0);
    assert_eq!(app.cursor_pid, 0);
    let mut app = browser();
    type_text(&mut app, "Term");
    assert_eq!(flags(&app), vec![(100, false, true)]);
}

#[test]
fn every_term_must_match() {
    let mut app = browser();
    type_text(&mut app, "chrome 42");
    assert_eq!(flags(&app), vec![(400, false, false), (420, true, false)]);
    assert_eq!(app.cursor_pid, 400);
}

#[test]
fn backspace_and_clear_restore_the_list() {
    let mut app = browser();
    type_text(&mut app, "4100");
    assert!(app.visible.is_empty());
    app.handle_key(key(Key::Backspace));
    assert_eq!(app.input, "410");
    assert_eq!(pids(&app), vec![400, 410]);
    app.handle_key(ctrl('u'));
    assert_eq!(app.input, "");
    assert_eq!(app.visible.len(), 6);
    let mut empty = browser();
    empty.handle_key(key(Key::Backspace));
    assert_eq!(empty.input, "");
}

#[test]
fn the_cursor_follows_its_process_and_stops_at_the_ends() {
    let mut app = browser();
    app.handle_key(key(Key::Down));
    assert_eq!((app.cursor, app.cursor_pid), (4, 410));
    app.handle_key(key(Key::Down));
    app.handle_key(key(Key::Down));
    assert_eq!((app.cursor, app.cursor_pid), (5, 420));
    type_text(&mut app, "chrome");
    assert_eq!((app.cursor, app.cursor_pid), (2, 420));
    for _ in 0..5 {
        app.handle_key(key(Key::Up));
    }
    assert_eq!((app.cursor, app.cursor_pid), (0, 400));
}

#[test]
fn move_cursor_on_an_empty_list() {
    let mut app = App::new();
    app.move_cursor(1);
    assert_eq!((app.cursor, app.cursor_pid), (0, 0));
}

#[test]
fn tab_twice_restores_the_selection() {
    let mut app = browser();
    app.handle_key(key(Key::Tab));
    assert!(app.selected.contains(&400));
    assert_eq!(app.message, "");
    app.handle_key(key(Key::Tab));
    assert!(app.selected.is_empty());
}

#[test]
fn protected_rows_cannot_be_selected() {
    let mut app = browser();
    for _ in 0..3 {
        app.handle_key(key(Key::Up));
    }
    assert_eq!(app.cursor_pid, 100);
    app.handle_key(key(Key::Tab));
    assert!(app.selected.is_empty());
    assert_eq!(app.message, "part of your own session — can't kill");
}

#[test]
fn enter_on_a_protected_row_kills_nothing() {
    let mut app = browser();
    for _ in 0..3 {
        app.handle_key(key(Key::Up));
    }
    assert!(app.kill_targets().is_empty());
    assert!(matches!(app.handle_key(key(Key::Enter)), Action::Nothing));
    assert!(matches!(app.mode, Mode::Normal));
    assert_eq!(app.message, "nothing selectable here");
}

#[test]
fn a_kill_needs_confirmation() {
    let mut app = browser();
    app.handle_key(key(Key::Down));
    assert!(matches!(app.handle_key(key(Key::Enter)), Action::Nothing));
    match &app.mode {
        Mode::Confirm(t) => assert_eq!(t, &vec![410]),
        Mode::Normal => panic!("no confirmation asked"),
    }
    assert!(matches!(app.handle_key(key(Key::Char('n'))), Action::Nothing));
    assert!(matches!(app.mode, Mode::Normal));
    app.handle_key(key(Key::Enter));
    match app.handle_key(key(Key::Char('Y'))) {
        Action::Kill(t) => assert_eq!(t, vec![410]),
        _ => panic!("no kill"),
    }
    assert!(matches!(app.mode, Mode::Normal));
}

#[test]
fn selected_processes_are_the_targets() {
    let mut app = browser();
    app.handle_key(key(Key::Down));
    app.handle_key(key(Key::Tab));
    app.handle_key(key(Key::Down));
    app.handle_key(key(Key::Tab));
    let mut t = app.kill_targets();
    t.sort();
    assert_eq!(t, vec![410, 420]);
}

#[test]
fn the_selection_view_lists_selected_processes_and_their_parents() {
    let mut app = browser();
    app.handle_key(key(Key::Down));
    app.handle_key(key(Key::Tab));
    assert!(matches!(app.handle_key(ctrl('l')), Action::Nothing));
    assert!(app.selection_view);
    assert_eq!(flags(&app), vec![(400, false, false), (410, true, false)]);
    assert_eq!(app.cursor_pid, 410);
    app.handle_key(key(Key::Tab));
    assert!(app.selected.is_empty());
    assert!(matches!(app.handle_key(key(Key::Esc)), Action::Nothing));
    assert!(!app.selection_view);
    assert_eq!(app.visible.len(), 6);
    assert!(matches!(app.handle_key(key(Key::Esc)), Action::Quit));
}

#[test]
fn control_keys() {
    let mut app = browser();
    assert!(matches!(app.handle_key(ctrl('r')), Action::Refresh));
    assert!(matches!(app.handle_key(ctrl('c')), Action::Quit));
    assert!(matches!(app.handle_key(key(Key::Other)), Action::Nothing));
    let released = KeyInput { key: Key::Char('x'), ctrl: false, ctrl_only: false, press: false };
    assert!(matches!(app.handle_key(released), Action::Nothing));
    assert_eq!(app.input, "");
    let alt_ctrl = KeyInput { key: Key::Char('x'), ctrl: true, ctrl_only: false, press: true };
    assert!(matches!(app.handle_key(alt_ctrl), Action::Nothing));
    assert_eq!(app.input, "");
}

#[test]
fn killed_processes_leave_the_selection() {
    let mut app = browser();
    app.handle_key(key(Key::Tab));
    app.handle_key(key(Key::Down));
    app.handle_key(key(Key::Tab));
    app.record_kills(&vec![400], &vec!["410: No such process".to_string()]);
    assert_eq!(app.selected.iter().copied().collect::<Vec<i32>>(), vec![410]);
    assert_eq!(app.message, "SIGKILLed 1 process(es) — failed: 410: No such process");
    app.record_kills(&vec![410], &vec![]);
    assert!(app.selected.is_empty());
    assert_eq!(app.message, "SIGKILLed 1 process(es)");
    app.record_kills(&vec![], &vec!["1: a".to_string(), "2: b".to_string()]);
    assert_eq!(app.message, "SIGKILLed 0 process(es) — failed: 1: a; 2: b");
}

#[test]
fn a_refresh_forgets_processes_that_are_gone() {
    let mut app = browser();
    app.handle_key(key(Key::Down));
    app.handle_key(key(Key::Tab));
    assert_eq!(app.cursor_pid, 410);
    let fewer = "  100 1 alice 0.0 0.1 05:00:00 0:01.50 /nonexistent/Terminal\n  400 1 alice 0.0 0.5 02:00:00 0:01.50 /nonexistent/Chrome\n";
    app.refresh(parse_ps(fewer, false, "alice"), 300, 0);
    assert!(app.selected.is_empty());
    assert_eq!(flags(&app), vec![(100, true, false), (400, true, false)]);
    assert_eq!((app.cursor, app.cursor_pid), (0, 100));
    let mut prot: Vec<i32> = app.protected.iter().copied().collect();
    prot.sort();
    assert!(prot.is_empty());
}

#[test]
fn processes_in_a_parent_cycle_are_drawn_once() {
    let listing = "  700 701 alice 0 0 1 0:01.50 /x/a\n  701 700 alice 0 0 1 0:01.50 /x/b\n  800 800 alice 0 0 1 0:01.50 /x/c\n  900 1 alice 0 0 1 0:01.50 /x/d\n";
    let mut app = App::new();
    app.refresh(parse_ps(listing, false, "alice"), 900, 0);
    assert_eq!(
        app.full_rows,
        vec![
            (900, "d".to_string()),
            (700, "a".to_string()),
            (701, "└── b".to_string()),
            (800, "c".to_string()),
        ]
    );
    assert_eq!(
        flags(&app),
        vec![(900, false, true), (700, true, false), (701, true, false), (800, true, false)]
    );
    assert_eq!(app.procs.get(700).unwrap().search, "700 a 701 b");
    assert_eq!(app.procs.get(701).unwrap().search, "701 b");
    assert_eq!(app.procs.get(800).unwrap().search, "800 c");
    type_text(&mut app, "b");
    assert_eq!(flags(&app), vec![(700, false, false), (701, true, false)]);
}

#[test]
fn terms_are_the_words_of_the_input() {
    let mut app = App::new();
    app.input = "  foo\tbar  ".to_string();
    assert_eq!(app.terms(), vec!["foo".to_string(), "bar".to_string()]);
}

#[test]
fn arguments_and_paths_are_not_searched() {
    let mut app = browser();
    type_text(&mut app, "renderer");
    assert!(app.visible.is_empty());
    let mut app = browser();
    type_text(&mut app, "nonexistent");
    assert!(app.visible.is_empty());
    let mut app = browser();
    type_text(&mut app, "zsh");
    assert_eq!(flags(&app), vec![(100, false, true), (200, false, true)]);
}

#[test]
fn backspace_undoes_a_typed_character() {
    let mut app = browser();
    type_text(&mut app, "ch");
    let before = flags(&app);
    let input = app.input.clone();
    type_text(&mut app, "x");
    assert!(app.visible.is_empty());
    assert!(matches!(app.handle_key(key(Key::Backspace)), Action::Nothing));
    assert_eq!(app.input, input);
    assert_eq!(flags(&app), before);
}

#[test]
fn a_refresh_with_the_same_listing_keeps_everything_still() {
    let mut app = browser();
    app.handle_key(key(Key::Down));
    app.handle_key(key(Key::Tab));
    type_text(&mut app, "chr");
    let rows = app.full_rows.clone();
    let before = flags(&app);
    let cursor = (app.cursor, app.cursor_pid);
    app.refresh(parse_ps(LISTING, false, "alice"), 300, 2000);
    assert_eq!(app.full_rows, rows);
    assert_eq!(flags(&app), before);
    assert_eq!((app.cursor, app.cursor_pid), cursor);
    assert_eq!(app.selected.iter().copied().collect::<Vec<i32>>(), vec![410]);
}

#[test]
fn an_extra_term_only_narrows_the_list() {
    let mut app = browser();
    type_text(&mut app, "chrome");
    let wide = flags(&app);
    type_text(&mut app, " 41");
    let narrow = flags(&app);
    assert_eq!(narrow, vec![(400, false, false), (410, true, false)]);
    for (pid, killable, _) in &narrow {
        let before = wide.iter().find(|r| r.0 == *pid).unwrap();
        assert!(!killable || before.1);
    }
}

#[test]
fn the_readme_search_shows_the_parent_chain() {
    let listing = "  400 1 alice 0 0 1 0:00.00 /x/Chrome\n  410 400 alice 0 0 1 0:00.00 /x/renderer --type=x\n  420 400 alice 0 0 1 0:00.00 /x/gpu\n";
    let mut app = App::new();
    app.refresh(parse_ps(listing, false, "alice"), 1, 0);
    type_text(&mut app, "RENDERER");
    assert!(app.visible.is_empty());
    app.handle_key(ctrl('u'));
    type_text(&mut app, "renderer");
    assert_eq!(flags(&app), vec![(400, false, false), (410, true, false)]);
}
