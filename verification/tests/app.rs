use oob_tui::app::App;
use oob_tui::model::parse_all;

fn http(ts: &str, path: &str) -> String {
    format!(
        r#"{{"protocol":"http","full-id":"{path}","raw-request":"GET {path} HTTP/1.1\r\n\r\n","raw-response":"","remote-address":"1.1.1.1","timestamp":"{ts}"}}"#
    )
}

fn app_from(lines: &[String]) -> App {
    App::new("test".into(), None, 0, parse_all(&lines.join("\n")))
}

fn rep_summary(app: &App) -> String {
    app.selected_interaction().unwrap().summary.clone()
}

#[test]
fn newest_is_first_and_selected_by_default() {
    let app = app_from(&[
        http("2026-06-20T10:00:00Z", "/old"),
        http("2026-06-20T12:00:00Z", "/new"),
    ]);
    assert_eq!(app.groups.len(), 2);
    assert_eq!(app.selected, 0, "selection defaults to the top");
    assert_eq!(rep_summary(&app), "GET /new", "top row is newest");
    assert_eq!(app.groups.last().unwrap().rep(&app.all).summary, "GET /old");
}

#[test]
fn reload_at_top_follows_the_newest() {
    let mut app = app_from(&[http("2026-06-20T10:00:00Z", "/a")]);
    assert_eq!(app.selected, 0);
    let data = [
        http("2026-06-20T10:00:00Z", "/a"),
        http("2026-06-20T11:00:00Z", "/b"),
    ]
    .join("\n");
    app.reload(&data);
    assert_eq!(app.selected, 0);
    assert_eq!(rep_summary(&app), "GET /b", "stays pinned to newest at top");
}

#[test]
fn reload_preserves_a_non_top_selection() {
    let mut app = app_from(&[
        http("2026-06-20T10:00:00Z", "/a"),
        http("2026-06-20T11:00:00Z", "/b"),
        http("2026-06-20T12:00:00Z", "/c"),
    ]);
    app.select_last();
    assert_eq!(rep_summary(&app), "GET /a");
    let data = [
        http("2026-06-20T10:00:00Z", "/a"),
        http("2026-06-20T11:00:00Z", "/b"),
        http("2026-06-20T12:00:00Z", "/c"),
        http("2026-06-20T13:00:00Z", "/d"),
    ]
    .join("\n");
    app.reload(&data);
    assert_eq!(rep_summary(&app), "GET /a", "selection follows the interaction");
    assert_ne!(app.selected, 0, "not yanked back to the top");
}
