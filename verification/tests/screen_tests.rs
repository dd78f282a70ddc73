use fkill::app::{kill_failure, App, Row};
use fkill::ps::{name_from_probes_exec, parse_ps, parse_uid, prefix_candidate, proc_name, proc_name_by};
use fkill::tree::{build_children, build_search, protected_set, root_pids, walk_starts, walk_tree};
use fkill::ui::{centered_rect, refresh_due, row_style, Area, RowStyle};
use std::collections::{HashMap, HashSet};

const LISTING: &str = "  100 1 alice 0.0 0.1 05:00:00 0:01.50 /nonexistent/Terminal\n  200 100 alice 0.0 0.1 04:00:00 0:01.50 -zsh\n  300 200 alice 1.5 2.0 03:00:00 0:01.50 /nonexistent/fkill\n  400 1 alice 0.0 0.5 02:00:00 0:01.50 /nonexistent/Chrome --type=browser\n  410 400 alice 12.0 3.0 01:00:00 0:01.50 /nonexistent/Chrome Helper --type=renderer\n  420 400 alice 0.0 1.0 01:00:00 0:01.50 /nonexistent/Chrome Helper --type=gpu\n";

fn browser() -> App {
    let mut app = App::new();
    app.refresh(parse_ps(LISTING, false, "alice"), 300, 0);
    app
}

fn strs(v: &[&str]) -> Vec<String> {
    v.iter().map(|s| s.to_string()).collect()
}

#[test]
fn row_styles() {
    let row = |killable: bool, protected: bool| Row { pid: 1, display: String::new(), killable, protected };
    assert_eq!(row_style(&row(false, true)), RowStyle::Locked);
    assert_eq!(row_style(&row(true, false)), RowStyle::Plain);
    assert_eq!(row_style(&row(false, false)), RowStyle::Context);
}

#[test]
fn the_dialog_is_centred() {
    let r = Area { x: 0, y: 0, width: 100, height: 50 };
    assert_eq!(centered_rect(60, 40, r), Area { x: 20, y: 15, width: 60, height: 20 });
    let full = Area { x: 3, y: 4, width: 80, height: 24 };
    assert_eq!(centered_rect(100, 100, full), full);
}

#[test]
fn status_line_counts() {
    let mut app = browser();
    assert_eq!(
        app.status_line(),
        "6 shown · 0 selected  ·  ↑↓ move · tab select · enter kill · ctrl+u clear · ctrl+r refresh · esc quit"
    );
    app.message = "hi".to_string();
    app.selected.insert(410);
    assert_eq!(
        app.status_line(),
        "hi  ·  6 shown · 1 selected  ·  ↑↓ move · tab select · enter kill · ctrl+u clear · ctrl+r refresh · esc quit"
    );
}

#[test]
fn details_of_the_highlighted_process() {
    let app = browser();
    let (fields, command) = app.details().unwrap();
    assert_eq!(fields, strs(&[" pid 400 ", "ppid 1 ", "user alice ", "%cpu 0.0 ", "%mem 0.5 ", "up 02:00:00"]));
    assert_eq!(command, "/nonexistent/Chrome --type=browser");
    assert!(App::new().details().is_none());
}

#[test]
fn confirmation_lines() {
    let app = browser();
    assert_eq!(
        app.confirm_lines(&vec![410, 420, 999], 4),
        strs(&["  410  Chrome", "  420  Chrome", "  … +1 more"])
    );
    assert_eq!(app.confirm_lines(&vec![410, 999], 5), strs(&["  410  Chrome", "  999  "]));
    assert_eq!(app.confirm_lines(&vec![410, 420, 999], 1), strs(&["  … +3 more"]));
    assert_eq!(app.confirm_lines(&vec![], 0), strs(&[]));
}

#[test]
fn highlight_and_marker() {
    let mut app = browser();
    assert_eq!(app.highlight_index(), 3);
    app.cursor = 17;
    assert_eq!(app.highlight_index(), 5);
    assert_eq!(App::new().highlight_index(), 0);
    app.selected.insert(410);
    assert_eq!(app.selection_marker(410), "● ");
    assert_eq!(app.selection_marker(420), "  ");
}

#[test]
fn reload_every_two_seconds() {
    assert!(!refresh_due(0));
    assert!(!refresh_due(1999));
    assert!(refresh_due(2000));
    assert!(refresh_due(60000));
}

#[test]
fn names_from_probed_paths() {
    let cmd = "/Applications/Google Chrome.app/Contents/MacOS/Google Chrome --type=renderer";
    assert_eq!(name_from_probes_exec(cmd, &vec![false, false, true, false]), "Google Chrome");
    assert_eq!(name_from_probes_exec(cmd, &vec![false, false, false, false]), "Google");
    assert_eq!(name_from_probes_exec(cmd, &vec![true, false]), "Google");
    assert_eq!(name_from_probes_exec(cmd, &vec![]), "Google");
    assert_eq!(name_from_probes_exec("a b c", &vec![false, true, true]), "a b c");
    assert_eq!(name_from_probes_exec("", &vec![false]), "");
}

#[test]
fn names_of_commands() {
    assert_eq!(proc_name("/nonexistent/dir/tool --flag x"), "tool");
    assert_eq!(proc_name("-zsh"), "-zsh");
    assert_eq!(proc_name("/bin/sh -c sleep"), "sh");
}

#[test]
fn kill_failure_reports() {
    assert_eq!(kill_failure(410, "No such process"), "410: No such process");
    assert_eq!(kill_failure(-1, ""), "-1: ");
}

#[test]
fn user_ids() {
    assert_eq!(parse_uid("501\n"), 501);
    assert_eq!(parse_uid("0"), 0);
    assert_eq!(parse_uid(""), u32::MAX);
    assert_eq!(parse_uid("x"), u32::MAX);
}

#[test]
fn smart_case_matching() {
    assert!(fkill::filter::matches("410 Google Chrome", &strs(&["chrome"])));
    assert!(!fkill::filter::matches("410 Google Chrome", &strs(&["CHROME"])));
    assert!(fkill::filter::matches("410 Google Chrome", &strs(&["Chrome", "41"])));
    assert!(!fkill::filter::matches("410 Google Chrome", &strs(&["chrome", "42"])));
    assert!(fkill::filter::matches("anything", &strs(&[])));
    assert!(fkill::filter::matches("STRASSE", &strs(&["strasse"])));
}

#[test]
fn tree_pieces() {
    let procs = parse_ps(LISTING, false, "alice");
    let children = build_children(&procs);
    assert_eq!(children.get(&400), Some(&vec![410, 420]));
    assert_eq!(children.get(&1), Some(&vec![100, 400]));
    assert_eq!(children.get(&410), None);
    assert_eq!(root_pids(&procs), vec![100, 400]);
    assert_eq!(walk_starts(&procs), vec![100, 400, 100, 200, 300, 400, 410, 420]);
    let mut prot: Vec<i32> = protected_set(&procs, 200).into_iter().collect();
    prot.sort();
    assert_eq!(prot, vec![100, 200]);
    assert!(protected_set(&procs, 12345).is_empty());

    let mut seen = HashSet::new();
    let mut out = Vec::new();
    walk_tree(400, 1, "│   ", false, &procs, &children, &mut seen, &mut out);
    assert_eq!(
        out,
        vec![
            (400, "│   ├── Chrome".to_string()),
            (410, "│   │   ├── Chrome".to_string()),
            (420, "│   │   └── Chrome".to_string()),
        ]
    );
    walk_tree(410, 0, "", true, &procs, &children, &mut seen, &mut out);
    assert_eq!(out.len(), 3);

    let mut cache = HashMap::new();
    let mut seen = HashSet::new();
    assert_eq!(build_search(400, &procs, &children, &mut cache, &mut seen), "400 Chrome 410 Chrome 420 Chrome");
    assert_eq!(cache.get(&410), Some(&"410 Chrome".to_string()));
    let mut seen2 = HashSet::new();
    seen2.insert(100);
    let mut cache2 = HashMap::new();
    assert_eq!(build_search(100, &procs, &children, &mut cache2, &mut seen2), "");
}

#[test]
fn candidate_paths_are_token_prefixes() {
    let toks = strs(&["/Applications/Google", "Chrome.app/x", "--flag"]);
    assert_eq!(prefix_candidate(&toks, 1), "/Applications/Google");
    assert_eq!(prefix_candidate(&toks, 2), "/Applications/Google Chrome.app/x");
    assert_eq!(prefix_candidate(&toks, 3), "/Applications/Google Chrome.app/x --flag");
    assert_eq!(prefix_candidate(&strs(&["", "a"]), 2), " a");
}

#[test]
fn walks_ignore_seen_and_cached_pids_even_when_unlisted() {
    let procs = parse_ps(LISTING, false, "alice");
    let children = build_children(&procs);
    let mut seen = HashSet::new();
    seen.insert(12345);
    let mut out = Vec::new();
    walk_tree(12345, 0, "", true, &procs, &children, &mut seen, &mut out);
    assert!(out.is_empty());
    assert_eq!(seen.len(), 1);
    let mut cache = HashMap::new();
    cache.insert(12345, "cached".to_string());
    let mut seen = HashSet::new();
    assert_eq!(build_search(12345, &procs, &children, &mut cache, &mut seen), "cached");
    assert!(seen.is_empty());
    let mut cache = HashMap::new();
    let mut seen = HashSet::new();
    seen.insert(12345);
    assert_eq!(build_search(12345, &procs, &children, &mut cache, &mut seen), "");
    assert!(cache.is_empty());
}

#[test]
fn the_probed_paths_are_the_token_prefixes() {
    let asked = std::cell::RefCell::new(Vec::new());
    let probe = |p: String| -> bool {
        asked.borrow_mut().push(p.clone());
        p == "/Apps/Google Chrome.app/x/Google Chrome"
    };
    let cmd = "/Apps/Google Chrome.app/x/Google Chrome --type=gpu --x";
    assert_eq!(proc_name_by(cmd, &probe), "Google Chrome");
    assert_eq!(
        asked.into_inner(),
        strs(&[
            "/Apps/Google",
            "/Apps/Google Chrome.app/x/Google",
            "/Apps/Google Chrome.app/x/Google Chrome",
            "/Apps/Google Chrome.app/x/Google Chrome --type=gpu",
        ])
    );
}

#[test]
fn centred_areas_stay_inside() {
    for (w, h) in [(100u16, 50u16), (7, 3), (1, 1), (0, 0), (333, 97)] {
        let r = Area { x: 5, y: 9, width: w, height: h };
        for (px, py) in [(60u16, 40u16), (0, 0), (100, 100), (33, 99)] {
            let c = centered_rect(px, py, r);
            assert!(c.x >= r.x && c.x as u32 + c.width as u32 <= r.x as u32 + r.width as u32);
            assert!(c.y >= r.y && c.y as u32 + c.height as u32 <= r.y as u32 + r.height as u32);
        }
    }
}
