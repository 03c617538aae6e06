use oob_tui::app::{App, Mode};
use oob_tui::model::parse_all;
use oob_tui::text::{chars_of, split_lines};
use oob_tui::app::View;
use oob_tui::time::{seconds_between, Instant};
use oob_tui::ui::{
    axis_gap, count_text, detail_fields, header_labels, help_rect, identical_badge, is_blank, newest_lines, newest_text,
    range_text, raw_lines, seen_span, status_line, StatusKind,
};

#[test]
fn raw_lines_drop_carriage_returns_and_keep_everything() {
    assert_eq!(raw_lines("GET / HTTP/1.1\r\nHost: h\r\n\r\nbody"), vec!["GET / HTTP/1.1", "Host: h", "", "body"]);
    assert_eq!(raw_lines("a\nb\n"), vec!["a", "b"]);
    assert_eq!(raw_lines("x\r\ry"), vec!["xy"]);
}

#[test]
fn blank_raw_text_shows_empty() {
    assert_eq!(raw_lines(""), vec!["(empty)"]);
    assert_eq!(raw_lines(" \r\n\t"), vec!["(empty)"]);
    assert!(is_blank(" \n"));
    assert!(!is_blank(" a "));
}

#[test]
fn split_lines_agrees_with_std() {
    for s in ["", "a", "a\n", "a\r\nb", "\n\n", "x\r", "a\n\r\nb\r\n"] {
        let got: Vec<String> = split_lines(&chars_of(s)).iter().map(|l| l.iter().collect()).collect();
        let want: Vec<String> = s.lines().map(str::to_string).collect();
        assert_eq!(got, want, "{s:?}");
    }
}

#[test]
fn group_detail_lines() {
    assert_eq!(identical_badge(12), " ×12 identical ");
    let a = Instant { secs: 1_781_470_741, nanos: 0 }; // 2026-06-14 20:59:01
    let b = Instant { secs: 1_781_471_100, nanos: 5 }; // 2026-06-14 21:05:00
    assert_eq!(seen_span(a, b), "06-14 20:59:01 → 06-14 21:05:00");
}

#[test]
fn timeline_count_line() {
    assert_eq!(count_text(7, 4, 3, 0, 2, 30), "7 total   http:4  dns:3   peak 2/col (~30s per col)");
    assert_eq!(count_text(9, 4, 3, 2, 5, 7200), "9 total   http:4  dns:3  other:2   peak 5/col (~2h per col)");
}

#[test]
fn status_line_forms() {
    let data = r#"{"protocol":"http","full-id":"f","raw-request":"GET /a HTTP/1.1","raw-response":"","remote-address":"1.1.1.1","timestamp":"2026-01-01T00:00:00Z"}"#;
    let mut app = App::new("t".into(), None, 0, parse_all(data));
    assert_eq!(status_line(&app), (StatusKind::Idle, "(none)".to_string()));
    app.query = "abc".into();
    assert_eq!(status_line(&app), (StatusKind::Idle, "abc".to_string()));
    app.status = "hello".into();
    assert_eq!(status_line(&app), (StatusKind::Message, " hello".to_string()));
    app.mode = Mode::Editing;
    assert_eq!(status_line(&app), (StatusKind::Editing, "abc".to_string()));
}

#[test]
fn help_popup_is_centred() {
    assert_eq!(help_rect(0, 0, 100, 40, 17), (22, 10, 56, 19));
    assert_eq!(help_rect(2, 3, 30, 10, 17), (4, 4, 26, 8));
    assert_eq!(help_rect(0, 0, 3, 1, 17), (1, 0, 0, 0));
}

const HTTP: &str = r#"{"protocol":"http","full-id":"abc.oob","raw-request":"GET /x HTTP/1.1","raw-response":"","remote-address":"1.2.3.4","timestamp":"2026-06-14T20:59:01.662306966Z"}"#;
const DNS: &str = r#"{"protocol":"dns","q-type":"AAAA","full-id":"n.oob","raw-request":";;","raw-response":"","remote-address":"8.8.8.8","timestamp":"2026-06-14T23:00:00Z"}"#;

#[test]
fn detail_fields_in_order() {
    let v = parse_all(HTTP);
    let f = detail_fields(&v[0]);
    let want = vec![
        ("protocol   ", "HTTP"),
        ("time       ", "2026-06-14 20:59:01.662 UTC"),
        ("source     ", "1.2.3.4"),
        ("full-id    ", "abc.oob"),
    ];
    assert_eq!(f, want.iter().map(|(a, b)| (a.to_string(), b.to_string())).collect::<Vec<_>>());
    let d = parse_all(DNS);
    let f = detail_fields(&d[0]);
    assert_eq!(f[1], ("q-type     ".to_string(), "AAAA".to_string()));
    assert_eq!(f.len(), 5);
}

#[test]
fn timeline_range_and_newest_list() {
    let v = parse_all(&format!("{HTTP}\n{DNS}"));
    let (a, b) = (v[0].timestamp, v[1].timestamp);
    assert_eq!(seconds_between(a, b), Some(7258));
    assert_eq!(seconds_between(b, a), Some(-7258));
    assert_eq!(range_text(a, b), "2026-06-14 20:59 → 2026-06-14 23:00  (2h)");
    assert_eq!(newest_text(&v[0]), "  06-14 20:59:01  HTTP   1.2.3.4          GET /x");
    let app = App::new("t".into(), None, 0, v);
    let l = newest_lines(&app, 5);
    assert_eq!(l, vec![
        "  06-14 23:00:00  DNS    8.8.8.8          AAAA n.oob".to_string(),
        "  06-14 20:59:01  HTTP   1.2.3.4          GET /x".to_string(),
    ]);
    assert_eq!(newest_lines(&app, 1).len(), 1);
    assert_eq!(axis_gap(25), "   ");
    assert_eq!(axis_gap(10), "");
}

#[test]
fn header_labels_follow_the_settings() {
    let mut app = App::new("oob".into(), None, 0, parse_all(HTTP));
    assert_eq!(
        header_labels(&app),
        (" oob ".to_string(), " proto:ALL ".to_string(), " group:off ".to_string(), " view:list ".to_string())
    );
    app.cycle_proto();
    app.toggle_grouping();
    app.view = View::Timeline;
    assert_eq!(
        header_labels(&app),
        (" oob ".to_string(), " proto:HTTP ".to_string(), " group:ON ".to_string(), " view:timeline ".to_string())
    );
}
