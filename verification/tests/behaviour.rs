use oob_tui::app::{App, Group, Mode, ProtoFilter, View};
use oob_tui::config::{Config, ConfigError, FileProbe, Probe, TomlProblem};
use oob_tui::model::{parse_all, parse_record_text, summarize_request, Interaction};
use oob_tui::text::{chars_of, contains_chars, first_two_words, is_whitespace};
use oob_tui::time::{format_instant, same_utc_day, Instant};
use oob_tui::ui::{axis_line, bucket_peak, fmt_time, human_span, spark_line};

fn rec(proto: &str, remote: &str, req: &str, ts: &str) -> String {
    format!(
        r#"{{"protocol":"{proto}","full-id":"id.example","raw-request":"{req}","raw-response":"r","remote-address":"{remote}","timestamp":"{ts}"}}"#
    )
}

fn dns(remote: &str, qtype: &str, name: &str, ts: &str) -> String {
    format!(
        r#"{{"protocol":"dns","q-type":"{qtype}","full-id":"{name}","raw-request":";; id {ts}","raw-response":"","remote-address":"{remote}","timestamp":"{ts}"}}"#
    )
}

fn app_of(lines: &[String]) -> App {
    App::new("t".into(), None, 0, parse_all(&lines.join("\n")))
}

#[test]
fn whitespace_agrees_with_std() {
    for u in 0u32..=0x10FFFF {
        if let Some(c) = char::from_u32(u) {
            assert_eq!(is_whitespace(c), c.is_whitespace(), "{u:x}");
        }
    }
}

#[test]
fn timeline_is_ordered_and_stable() {
    let a = rec("http", "1.1.1.1", "GET /a HTTP/1.1", "2026-01-01T00:00:05Z");
    let b = rec("http", "1.1.1.1", "GET /b HTTP/1.1", "2026-01-01T00:00:01Z");
    let c = rec("http", "1.1.1.1", "GET /c HTTP/1.1", "2026-01-01T00:00:05Z");
    let v = parse_all(&[a, b, c].join("\r\n"));
    let s: Vec<&str> = v.iter().map(|i| i.summary.as_str()).collect();
    assert_eq!(s, vec!["GET /b", "GET /a", "GET /c"]);
}

#[test]
fn timestamps_are_converted_to_utc() {
    let a = rec("http", "1.1.1.1", "GET /a", "2026-01-01T01:00:00+01:00");
    let v = parse_all(&a);
    assert_eq!(v[0].timestamp, Instant { secs: 1767225600, nanos: 0 });
    assert_eq!(format_instant(v[0].timestamp, "%Y-%m-%d %H:%M:%S"), "2026-01-01 00:00:00");
}

#[test]
fn records_without_valid_timestamp_are_skipped() {
    let bad_ts = rec("http", "1.1.1.1", "GET /a", "yesterday");
    let no_ts = r#"{"protocol":"http"}"#.to_string();
    let num_ts = r#"{"protocol":"http","timestamp":5}"#.to_string();
    assert!(parse_all(&[bad_ts, no_ts, num_ts, "   ".into(), "[1,2]".into()].join("\n")).is_empty());
    assert!(parse_all("").is_empty());
}

#[test]
fn record_fields_and_defaults() {
    let it = parse_record_text(r#"{"unique-id":"u1","timestamp":"2026-01-01T00:00:00Z","q-type":"AAAA"}"#).unwrap();
    assert_eq!(it.protocol, "?");
    assert_eq!(it.full_id, "u1");
    assert_eq!(it.remote, "");
    assert_eq!(it.qtype.as_deref(), Some("AAAA"));
    assert_eq!(it.summary, "u1");
    let up = parse_record_text(r#"{"protocol":"HTTP","timestamp":"2026-01-01T00:00:00Z","raw-request":"POST"}"#).unwrap();
    assert_eq!(up.protocol, "http");
    assert_eq!(up.summary, "POST");
}

#[test]
fn summaries() {
    assert_eq!(summarize_request("dns", &None, "", "x.y"), "? x.y");
    assert_eq!(summarize_request("dns", &Some("TXT".into()), "", "x.y"), "TXT x.y");
    assert_eq!(summarize_request("smtp", &None, "  EHLO   mail.example  more\r\nX", "id"), "EHLO mail.example");
    assert_eq!(summarize_request("http", &None, "\r\nGET / HTTP/1.1", "id"), "id");
    assert_eq!(summarize_request("http", &None, "", "id"), "id");
}

#[test]
fn words_and_search() {
    let (a, b) = first_two_words(&chars_of("  one\ttwo three "));
    assert_eq!(a.unwrap().iter().collect::<String>(), "one");
    assert_eq!(b.unwrap().iter().collect::<String>(), "two");
    let (a, b) = first_two_words(&chars_of("   "));
    assert!(a.is_none() && b.is_none());
    assert!(contains_chars(&chars_of("abcabd"), &chars_of("abd")));
    assert!(!contains_chars(&chars_of("ab"), &chars_of("abc")));
    assert!(contains_chars(&chars_of(""), &chars_of("")));
}

#[test]
fn query_matches_lowercased_fields() {
    let v = parse_all(&rec("http", "10.0.0.1", "GET /Admin HTTP/1.1", "2026-01-01T00:00:00Z"));
    let it = &v[0];
    assert!(it.matches("/admin"));
    assert!(it.matches("http"));
    assert!(!it.matches("/Admin"));
    assert!(it.matches("10.0.0"));
}

#[test]
fn dns_signature_ignores_request_and_time() {
    let a = dns("8.8.8.8", "A", "x.oob", "2026-01-01T00:00:00Z");
    let b = dns("8.8.8.8", "A", "x.oob", "2026-01-01T00:05:00Z");
    let c = dns("8.8.8.8", "MX", "x.oob", "2026-01-01T00:06:00Z");
    let v = parse_all(&[a, b, c].join("\n"));
    assert_eq!(v[0].group_signature(), v[1].group_signature());
    assert_ne!(v[0].group_signature(), v[2].group_signature());
    assert_eq!(v[0].group_signature(), "dns\u{1}8.8.8.8\u{1}A\u{1}x.oob");
}

#[test]
fn grouping_collapses_identical_requests_newest_first() {
    let lines = vec![
        rec("http", "1.1.1.1", "GET /x HTTP/1.1", "2026-01-01T00:00:00Z"),
        rec("http", "2.2.2.2", "GET /y HTTP/1.1", "2026-01-01T00:01:00Z"),
        rec("http", "1.1.1.1", "GET /x HTTP/1.1", "2026-01-01T00:02:00Z"),
        rec("http", "1.1.1.1", "GET /x HTTP/1.1", "2026-01-01T00:03:00Z"),
    ];
    let mut app = app_of(&lines);
    assert_eq!(app.groups.len(), 4);
    app.toggle_grouping();
    assert!(app.grouping);
    assert_eq!(app.selected, 0);
    assert_eq!(app.groups.len(), 2);
    assert_eq!(app.groups[0].indices, vec![0, 2, 3]);
    assert_eq!(app.groups[1].indices, vec![1]);
    assert_eq!(app.groups[0].count(), 3);
    assert_eq!(app.groups[0].rep(&app.all).summary, "GET /x");
    assert_eq!(app.groups[0].first(&app.all).timestamp.secs, 1767225600);
    assert_eq!(app.filtered, vec![0, 1, 2, 3]);
    app.toggle_grouping();
    assert_eq!(app.groups.len(), 4);
    assert_eq!(app.groups[0].indices, vec![3]);
}

#[test]
fn group_sources_are_distinct_in_first_seen_order() {
    let lines = vec![
        rec("http", "3.3.3.3", "GET /x", "2026-01-01T00:00:00Z"),
        rec("http", "1.1.1.1", "GET /x", "2026-01-01T00:01:00Z"),
        rec("http", "3.3.3.3", "GET /x", "2026-01-01T00:02:00Z"),
    ];
    let app = app_of(&lines);
    let g = Group { indices: vec![0, 1, 2] };
    assert_eq!(g.sources(&app.all), vec!["3.3.3.3".to_string(), "1.1.1.1".to_string()]);
}

#[test]
fn protocol_filter_cycles_and_filters() {
    assert_eq!(ProtoFilter::All.next().next().next(), ProtoFilter::All);
    assert_eq!(ProtoFilter::Http.label(), "HTTP");
    assert_eq!(ProtoFilter::Dns.label(), "DNS");
    assert_eq!(ProtoFilter::All.label(), "ALL");
    let lines = vec![
        rec("http", "1.1.1.1", "GET /x", "2026-01-01T00:00:00Z"),
        dns("8.8.8.8", "A", "n", "2026-01-01T00:01:00Z"),
        rec("smtp", "1.1.1.1", "EHLO x", "2026-01-01T00:02:00Z"),
    ];
    let mut app = app_of(&lines);
    app.cycle_proto();
    assert_eq!(app.proto, ProtoFilter::Http);
    assert_eq!(app.filtered, vec![0]);
    app.cycle_proto();
    assert_eq!(app.filtered, vec![1]);
    app.cycle_proto();
    assert_eq!(app.filtered, vec![0, 1, 2]);
}

#[test]
fn query_filters_and_clamps_selection() {
    let lines = vec![
        rec("http", "1.1.1.1", "GET /alpha", "2026-01-01T00:00:00Z"),
        rec("http", "1.1.1.1", "GET /beta", "2026-01-01T00:01:00Z"),
        rec("http", "1.1.1.1", "GET /gamma", "2026-01-01T00:02:00Z"),
    ];
    let mut app = app_of(&lines);
    app.select_last();
    assert_eq!(app.selected, 2);
    app.query = "BETA".into();
    app.recompute();
    assert_eq!(app.filtered, vec![1]);
    assert_eq!(app.selected, 0);
    app.query = "nothing".into();
    app.recompute();
    assert!(app.groups.is_empty());
    assert!(app.selected_group().is_none());
    assert!(app.selected_interaction().is_none());
    assert!(app.export_selected().is_none());
    app.move_selection(1);
    assert_eq!(app.selected, 0);
}

#[test]
fn navigation_stops_at_the_ends() {
    let lines = vec![
        rec("http", "1.1.1.1", "GET /a", "2026-01-01T00:00:00Z"),
        rec("http", "1.1.1.1", "GET /b", "2026-01-01T00:01:00Z"),
        rec("http", "1.1.1.1", "GET /c", "2026-01-01T00:02:00Z"),
    ];
    let mut app = app_of(&lines);
    app.move_selection(-1);
    assert_eq!(app.selected, 0);
    app.scroll_detail(5);
    app.move_selection(5);
    assert_eq!(app.selected, 2);
    assert_eq!(app.detail_scroll, 0);
    app.move_selection(-1);
    assert_eq!(app.selected, 1);
    app.select_first();
    assert_eq!(app.selected, 0);
}

#[test]
fn detail_scroll_floors_at_zero_and_wraps_like_u16() {
    let mut app = app_of(&[]);
    app.scroll_detail(-5);
    assert_eq!(app.detail_scroll, 0);
    app.scroll_detail(7);
    assert_eq!(app.detail_scroll, 7);
    app.detail_scroll = 65535;
    app.scroll_detail(5);
    assert_eq!(app.detail_scroll, 4);
}

#[test]
fn view_toggles() {
    let mut app = app_of(&[]);
    assert_eq!(app.view, View::List);
    assert_eq!(app.mode, Mode::Normal);
    app.toggle_view();
    assert_eq!(app.view, View::Timeline);
    app.toggle_view();
    assert_eq!(app.view, View::List);
}

#[test]
fn reload_with_no_rows_goes_to_top() {
    let mut app = app_of(&[rec("http", "1.1.1.1", "GET /a", "2026-01-01T00:00:00Z")]);
    let n = app.reload("");
    assert_eq!(n, 0);
    assert_eq!(app.selected, 0);
    assert!(app.groups.is_empty());
}

#[test]
fn reload_keeps_a_grouped_selection() {
    let x = rec("http", "1.1.1.1", "GET /x", "2026-01-01T00:00:00Z");
    let y = rec("http", "1.1.1.1", "GET /y", "2026-01-01T00:01:00Z");
    let z = rec("http", "1.1.1.1", "GET /z", "2026-01-01T00:02:00Z");
    let mut app = app_of(&[x.clone(), y.clone(), z.clone()]);
    app.toggle_grouping();
    app.move_selection(1);
    assert_eq!(app.selected_interaction().unwrap().summary, "GET /y");
    let n = app.reload(&[x, y, z, rec("http", "1.1.1.1", "GET /w", "2026-01-01T00:03:00Z")].join("\n"));
    assert_eq!(n, 4);
    assert_eq!(app.selected_interaction().unwrap().summary, "GET /y");
    assert_eq!(app.selected, 2);
}

#[test]
fn export_single_interaction() {
    let r = r#"{"protocol":"http","full-id":"abc.oob","raw-request":"GET / HTTP/1.1\r\nHost: h\r\n\r\n","raw-response":"HTTP/1.1 200 OK\r\n\r\nhi  \n","remote-address":"1.2.3.4","timestamp":"2026-06-14T20:59:01.662Z"}"#;
    let app = app_of(&[r.to_string()]);
    let text = app.export_selected().unwrap();
    let want = "# interactsh-tui interaction export\n\nprotocol : HTTP\nfull-id  : abc.oob\nsource   : 1.2.3.4\ntime     : 2026-06-14 20:59:01.662 UTC\n\n===== RAW REQUEST =====\nGET / HTTP/1.1\nHost: h\n\n===== RAW RESPONSE =====\nHTTP/1.1 200 OK\n\nhi\n";
    assert_eq!(text, want);
}

#[test]
fn export_group() {
    let a = dns("1.1.1.1", "A", "n.oob", "2026-06-14T20:00:00Z");
    let b = dns("2.2.2.2", "A", "n.oob", "2026-06-14T20:00:01Z");
    let c = dns("1.1.1.1", "A", "n.oob", "2026-06-14T20:00:02Z");
    let mut app = app_of(&[a, b, c]);
    app.toggle_grouping();
    let text = app.export_selected().unwrap();
    let want = "# interactsh-tui interaction export\n\nprotocol : DNS\nq-type   : A\nfull-id  : n.oob\n\
                group    : 2 identical occurrences\n\
                seen     : 2026-06-14 20:00:00 UTC -> 2026-06-14 20:00:02 UTC\n\
                sources  : 1.1.1.1\n\
                \n## occurrences (time  source)\n  2026-06-14 20:00:00.000  1.1.1.1\n  2026-06-14 20:00:02.000  1.1.1.1\n\
                \n(request below is the newest occurrence; the rest are identical)\n\
                \n===== RAW REQUEST =====\n;; id 2026-06-14T20:00:02Z\n\n===== RAW RESPONSE =====\n\n";
    assert_eq!(text, want);
}

#[test]
fn spans() {
    assert_eq!(human_span(-5), "0s");
    assert_eq!(human_span(89), "89s");
    assert_eq!(human_span(90), "1m");
    assert_eq!(human_span(5399), "89m");
    assert_eq!(human_span(5400), "1h");
    assert_eq!(human_span(172799), "47h");
    assert_eq!(human_span(172800), "2d");
}

#[test]
fn sparkline_levels() {
    assert_eq!(spark_line(&[0, 1, 4, 8, 3], 8), " ▁▄█▃");
    assert_eq!(spark_line(&[5], 0), "█");
    assert_eq!(spark_line(&[9], 8), "█");
    assert_eq!(spark_line(&[], 1), "");
    assert_eq!(bucket_peak(&[0, 0]), 1);
    assert_eq!(bucket_peak(&[3, 7, 2]), 7);
    assert_eq!(axis_line(3), "───");
}

#[test]
fn time_stamps_and_days() {
    let t = Instant { secs: 1767225600 + 3661, nanos: 5_000_000 };
    assert_eq!(fmt_time(t, false), "01:01:01");
    assert_eq!(fmt_time(t, true), "01-01 01:01:01");
    assert_eq!(format_instant(t, "%Y-%m-%d %H:%M:%S%.3f UTC"), "2026-01-01 01:01:01.005 UTC");
    assert!(same_utc_day(Instant { secs: 0, nanos: 0 }, Instant { secs: 86399, nanos: 0 }));
    assert!(!same_utc_day(Instant { secs: -1, nanos: 0 }, Instant { secs: 0, nanos: 0 }));
    assert!(same_utc_day(Instant { secs: -86400, nanos: 0 }, Instant { secs: -1, nanos: 0 }));
}

#[test]
fn config_errors() {
    assert_eq!(Config::from_toml("host = ").unwrap_err(), TomlProblem::Syntax);
    assert_eq!(Config::from_toml("nope = 1").unwrap_err(), TomlProblem::UnknownField("nope".into()));
    assert_eq!(Config::from_toml("host = 3").unwrap_err(), TomlProblem::WrongType("host".into()));
    assert_eq!(Config::from_toml("refresh_secs = -1").unwrap_err(), TomlProblem::WrongType("refresh_secs".into()));
    assert_eq!(Config::from_toml("editor = true").unwrap_err(), TomlProblem::WrongType("editor".into()));
}

#[test]
fn config_reports_the_first_problem_in_document_order() {
    assert_eq!(Config::from_toml("zeta = 1\nalpha = 2").unwrap_err(), TomlProblem::UnknownField("zeta".into()));
    assert_eq!(Config::from_toml("remote_log = 5\nhost = 3").unwrap_err(), TomlProblem::WrongType("remote_log".into()));
    assert_eq!(Config::from_toml("host = 3\nnope = 1").unwrap_err(), TomlProblem::WrongType("host".into()));
    assert_eq!(Config::from_toml("nope = 1\nhost = 3").unwrap_err(), TomlProblem::UnknownField("nope".into()));
}

fn probe(path: &str, probe: Probe) -> FileProbe {
    FileProbe { path: path.into(), probe }
}

#[test]
fn config_lookup_order() {
    let r = Config::load(Some(probe("x.toml", Probe::Missing)), vec![]);
    assert!(matches!(r, Err(ConfigError::NotFound(p)) if p == "x.toml"));
    let r = Config::load(Some(probe("x.toml", Probe::Unreadable)), vec![]);
    assert!(matches!(r, Err(ConfigError::Unreadable(p)) if p == "x.toml"));
    let r = Config::load(Some(probe("x.toml", Probe::Text("bad = 1".into()))), vec![]);
    assert!(matches!(r, Err(ConfigError::Invalid(p, TomlProblem::UnknownField(_))) if p == "x.toml"));
    let (c, p) = Config::load(
        None,
        vec![
            probe("a.toml", Probe::Missing),
            probe("b.toml", Probe::Text("host = 'b'".into())),
            probe("c.toml", Probe::Text("host = 'c'".into())),
        ],
    )
    .unwrap();
    assert_eq!(c.host, "b");
    assert_eq!(p.as_deref(), Some("b.toml"));
    let (c, p) = Config::load(None, vec![probe("a.toml", Probe::Missing)]).unwrap();
    assert_eq!(c.refresh_secs, 60);
    assert!(p.is_none());
    let d = Config::default();
    assert_eq!(d.remote_log, "/var/log/interactsh/interactions.jsonl");
}

#[test]
fn interactions_are_plain_values() {
    let it = Interaction {
        timestamp: Instant { secs: 0, nanos: 0 },
        protocol: "dns".into(),
        remote: "r".into(),
        full_id: "f".into(),
        qtype: None,
        raw_request: String::new(),
        raw_response: String::new(),
        summary: String::new(),
    };
    assert_eq!(it.group_signature(), "dns\u{1}r\u{1}\u{1}f");
    assert!(it.matches(""));
}
