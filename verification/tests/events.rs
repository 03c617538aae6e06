use oob_tui::fetch::{decode_fetched, host_configured, remote_command};
use std::io::Write;
use oob_tui::app::{App, Group, Mode, ProtoFilter, View};
use oob_tui::events::{
    auto_refresh_due, editor_command, export_file, refreshing_status, status_expired, Action, Key, LoopEvent,
};
use oob_tui::model::parse_all;
use oob_tui::ui::{count_badge, refresh_text, row_source, shown_text, sources_text};

fn rec(path: &str, ts: &str) -> String {
    format!(
        r#"{{"protocol":"http","full-id":"f","raw-request":"GET {path} HTTP/1.1","raw-response":"","remote-address":"1.1.1.1","timestamp":"{ts}"}}"#
    )
}

fn sample() -> App {
    let lines = [
        rec("/a", "2026-01-01T00:00:00Z"),
        rec("/b", "2026-01-01T00:01:00Z"),
        rec("/a", "2026-01-01T00:02:00Z"),
    ];
    App::new("t".into(), None, 30, parse_all(&lines.join("\n")))
}

#[test]
fn keys_navigate_and_toggle() {
    let mut app = sample();
    assert_eq!(app.handle_key(Key::Char('j', false), false), Action::Nothing);
    assert_eq!(app.selected, 1);
    app.handle_key(Key::Down, false);
    app.handle_key(Key::Down, false);
    assert_eq!(app.selected, 2);
    app.handle_key(Key::Char('g', false), false);
    assert_eq!(app.selected, 0);
    app.handle_key(Key::End, false);
    assert_eq!(app.selected, 2);
    app.handle_key(Key::Up, false);
    assert_eq!(app.selected, 1);
    app.handle_key(Key::PageDown, false);
    assert_eq!(app.detail_scroll, 5);
    app.handle_key(Key::Char('K', false), false);
    assert_eq!(app.detail_scroll, 0);
    app.handle_key(Key::Char('t', false), false);
    assert_eq!(app.view, View::Timeline);
    app.handle_key(Key::Char('p', false), false);
    assert_eq!(app.proto, ProtoFilter::Http);
    app.handle_key(Key::Char('s', false), false);
    assert!(app.grouping);
    assert_eq!(app.groups.len(), 2);
    assert_eq!(app.selected, 0);
}

#[test]
fn keys_ask_for_outside_work() {
    let mut app = sample();
    assert_eq!(app.handle_key(Key::Char('e', false), false), Action::OpenEditor);
    assert_eq!(app.handle_key(Key::Char('r', false), false), Action::Refresh);
    assert_eq!(app.handle_key(Key::Char('r', false), true), Action::Nothing);
    assert_eq!(app.handle_key(Key::Char('x', false), false), Action::Nothing);
}

#[test]
fn keys_quit() {
    let mut app = sample();
    app.handle_key(Key::Char('c', false), false);
    assert!(!app.should_quit);
    app.handle_key(Key::Char('c', true), false);
    assert!(app.should_quit);
    let mut app = sample();
    app.handle_key(Key::Esc, false);
    assert!(app.should_quit);
    let mut app = sample();
    app.handle_key(Key::Char('q', false), false);
    assert!(app.should_quit);
}

#[test]
fn help_overlay_swallows_one_key() {
    let mut app = sample();
    app.handle_key(Key::Char('?', false), false);
    assert!(app.show_help);
    app.handle_key(Key::Char('q', false), false);
    assert!(!app.show_help);
    assert!(!app.should_quit);
}

#[test]
fn query_editing() {
    let mut app = sample();
    app.status = "old".into();
    app.handle_key(Key::Char('/', false), false);
    assert_eq!(app.mode, Mode::Editing);
    assert!(app.status.is_empty());
    app.handle_key(Key::Char('/', false), false);
    app.handle_key(Key::Char('b', false), false);
    assert_eq!(app.query, "/b");
    assert_eq!(app.filtered, vec![1]);
    app.handle_key(Key::Char('q', false), false);
    assert_eq!(app.query, "/bq");
    assert!(app.filtered.is_empty());
    app.handle_key(Key::Backspace, false);
    assert_eq!(app.query, "/b");
    app.handle_key(Key::Enter, false);
    assert_eq!(app.mode, Mode::Normal);
    assert_eq!(app.selected, 0);
    assert_eq!(app.filtered, vec![1]);
    app.handle_key(Key::Char('/', false), false);
    app.handle_key(Key::Backspace, false);
    app.handle_key(Key::Backspace, false);
    app.handle_key(Key::Backspace, false);
    assert_eq!(app.query, "");
    app.handle_key(Key::Esc, false);
    assert_eq!(app.mode, Mode::Normal);
    assert!(!app.should_quit);
}

#[test]
fn fetch_results() {
    let mut app = sample();
    app.apply_fetch(Err("boom".into()));
    assert_eq!(app.status, "refresh failed: boom");
    assert_eq!(app.all.len(), 3);
    app.apply_fetch(Ok(rec("/z", "2026-01-02T00:00:00Z")));
    assert_eq!(app.status, "updated — 1 interactions");
    assert_eq!(app.all.len(), 1);
}

#[test]
fn timers() {
    assert!(auto_refresh_due(60, false, 60));
    assert!(!auto_refresh_due(60, false, 59));
    assert!(!auto_refresh_due(60, true, 600));
    assert!(!auto_refresh_due(0, false, 600));
    assert!(!status_expired(4, 0));
    assert!(status_expired(4, 1));
    assert!(status_expired(5, 0));
}

#[test]
fn editor_commands() {
    assert_eq!(editor_command(&Some("code -w".into()), &Some("vim".into())), vec!["code", "-w"]);
    assert_eq!(editor_command(&None, &Some("vim".into())), vec!["vim"]);
    assert_eq!(editor_command(&None, &None), vec!["nvim"]);
    assert_eq!(editor_command(&Some("   ".into()), &None), vec!["nvim"]);
}

#[test]
fn export_file_names() {
    let app = sample();
    let it = app.selected_interaction().unwrap();
    assert_eq!(export_file(it), "oob-http-20260101T000200.txt");
}

#[test]
fn header_and_row_labels() {
    let mut app = sample();
    assert_eq!(shown_text(&app), " 3/3 shown ");
    app.toggle_grouping();
    assert_eq!(shown_text(&app), " 2 groups / 3 shown ");
    assert_eq!(refresh_text(30), " auto:30s ");
    assert_eq!(refresh_text(0), " auto:off ");
    assert_eq!(count_badge(1), "");
    assert_eq!(count_badge(12), "×12");
    assert_eq!(row_source(&app, &app.groups[0]), "1.1.1.1");
    let lines = [
        r#"{"protocol":"http","remote-address":"1.1.1.1","timestamp":"2026-01-01T00:00:00Z"}"#,
        r#"{"protocol":"http","remote-address":"2.2.2.2","timestamp":"2026-01-01T00:00:01Z"}"#,
    ];
    let mut two = App::new("t".into(), None, 0, parse_all(&lines.join("\n")));
    two.toggle_grouping();
    let g = Group { indices: vec![0, 1] };
    assert_eq!(row_source(&two, &g), "2.2.2.2 +1");
    let srcs: Vec<String> = ["a", "b", "c", "d", "e"].iter().map(|s| s.to_string()).collect();
    assert_eq!(sources_text(&srcs), "a, b, c, +2 more");
    assert_eq!(sources_text(&srcs[..3].to_vec()), "a, b, c");
    assert_eq!(sources_text(&Vec::new()), "");
}

#[test]
fn fetched_logs_decompress() {
    let mut enc = flate2::write::GzEncoder::new(Vec::new(), flate2::Compression::default());
    enc.write_all("line one\nline two\n".as_bytes()).unwrap();
    let gz = enc.finish().unwrap();
    assert_eq!(decode_fetched(&gz).as_deref(), Some("line one\nline two\n"));
    assert!(decode_fetched(&b"not gzip".to_vec()).is_none());
    assert!(host_configured(" oob "));
    assert!(!host_configured(" \t"));
    assert_eq!(remote_command("/var/log/x.jsonl"), "gzip -c /var/log/x.jsonl");
}

#[test]
fn esc_cancels_the_query_edit() {
    let mut app = sample();
    app.handle_key(Key::Char('/', false), false);
    for c in "/b".chars() {
        app.handle_key(Key::Char(c, false), false);
    }
    app.handle_key(Key::Enter, false);
    assert_eq!(app.query, "/b");
    assert_eq!(app.filtered, vec![1]);
    app.handle_key(Key::Char('/', false), false);
    app.handle_key(Key::Backspace, false);
    app.handle_key(Key::Char('a', false), false);
    assert_eq!(app.query, "/a");
    assert_eq!(app.filtered, vec![0, 2]);
    app.handle_key(Key::Esc, false);
    assert_eq!(app.mode, Mode::Normal);
    assert_eq!(app.query, "/b");
    assert_eq!(app.filtered, vec![1]);
    assert_eq!(app.groups.len(), 1);
    assert!(!app.should_quit);
}

#[test]
fn loop_steps_keep_one_fetch_at_a_time() {
    let mut app = sample();
    // Not due yet.
    assert_eq!(app.step(false, LoopEvent::Tick(29)), (false, Action::Nothing));
    // Due: the automatic refresh starts.
    assert_eq!(app.step(false, LoopEvent::Tick(30)), (true, Action::Refresh));
    assert_eq!(app.status, "auto-refreshing\u{2026}");
    // While it runs, neither the timer nor `r` starts another.
    assert_eq!(app.step(true, LoopEvent::Tick(100)), (true, Action::Nothing));
    assert_eq!(app.step(true, LoopEvent::Press(Key::Char('r', false))), (true, Action::Nothing));
    // Its outcome ends it.
    assert_eq!(app.step(true, LoopEvent::Delivered(Err("down".into()))), (false, Action::Nothing));
    assert_eq!(app.status, "refresh failed: down");
    // Now `r` starts one.
    assert_eq!(app.step(false, LoopEvent::Press(Key::Char('r', false))), (true, Action::Refresh));
    let data = [rec("/a", "2026-01-01T00:00:00Z"), rec("/z", "2026-01-01T00:09:00Z")].join("\n");
    assert_eq!(app.step(true, LoopEvent::Delivered(Ok(data))), (false, Action::Nothing));
    assert_eq!(app.all.len(), 2);
    // With refreshing disabled the timer never starts one.
    let mut off = App::new("t".into(), None, 0, Vec::new());
    assert_eq!(off.step(false, LoopEvent::Tick(1_000_000)), (false, Action::Nothing));
}

#[test]
fn refreshing_status_names_the_host() {
    assert_eq!(refreshing_status("oob"), "refreshing from oob\u{2026}");
}
