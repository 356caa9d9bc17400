use ft_core::daily::{translate_format, DailyError};

#[test]
fn translate_default() {
    assert_eq!(translate_format("YYYY-MM-DD").unwrap(), "%Y-%m-%d");
}

#[test]
fn translate_long_year_and_month() {
    assert_eq!(translate_format("YYYY/MMMM/DD").unwrap(), "%Y/%B/%d");
}

#[test]
fn translate_with_literal_brackets() {
    assert_eq!(translate_format("[Daily-]YYYY-MM-DD").unwrap(), "Daily-%Y-%m-%d");
}

#[test]
fn translate_unsupported_token_rejected() {
    let err = translate_format("YYYY-Q-MM").unwrap_err();
    assert!(matches!(err, DailyError::UnsupportedToken { .. }));
    if let DailyError::UnsupportedToken { token } = err {
        assert_eq!(token, "Q");
    }
}

#[test]
fn translate_path_pattern() {
    assert_eq!(translate_format("journal/YYYY").unwrap(), "journal/%Y");
    assert_eq!(translate_format("journal/YYYY/MM").unwrap(), "journal/%Y/%m");
}

#[test]
fn translate_every_token() {
    assert_eq!(
        translate_format("YY M D DDDD dddd ddd MMM HH mm ss").unwrap(),
        "%y %-m %-d %j %A %a %b %H %M %S"
    );
}

#[test]
fn translate_escapes_percent_and_keeps_unclosed_bracket() {
    assert_eq!(translate_format("100%").unwrap(), "100%%");
    assert_eq!(translate_format("[YYYY").unwrap(), "[%Y");
}

#[test]
fn translate_qo_is_reserved() {
    match translate_format("Qo") {
        Err(DailyError::UnsupportedToken { token }) => assert_eq!(token, "Qo"),
        other => panic!("expected UnsupportedToken, got {other:?}"),
    }
}

// ── where the daily note lives ────────────────────────────────────────────

use ft_core::daily::{try_resolve_daily_path, DailyNotes, DailyPath, DailySource, PluginDaily};
use ft_core::date::Date;

fn date(y: i32, m: u32, d: u32) -> Date {
    Date::from_ymd_opt(y, m, d).unwrap()
}

fn plugin(folder: Option<&str>, format: Option<&str>, enabled: bool) -> Option<PluginDaily> {
    Some(PluginDaily {
        folder: folder.map(str::to_string),
        format: format.map(str::to_string),
        enabled,
    })
}

fn at(folder: &str, file_name: &str) -> DailyPath {
    DailyPath {
        folder: folder.to_string(),
        file_name: file_name.to_string(),
    }
}

fn source(s: DailySource) -> DailyNotes {
    DailyNotes {
        source: s,
        ..Default::default()
    }
}

#[test]
fn core_resolves_with_default_format() {
    let p = try_resolve_daily_path(&source(DailySource::Core), "c.json", plugin(Some("journal/2024"), None, true), date(2026, 5, 9))
        .unwrap()
        .unwrap();
    assert_eq!(p, at("journal/2024", "2026-05-09.md"));
}

#[test]
fn core_missing_errors() {
    let err = try_resolve_daily_path(&DailyNotes::default(), "c.json", None, date(2026, 5, 9)).unwrap().unwrap_err();
    assert!(matches!(err, DailyError::CoreNotFound { .. }));
}

#[test]
fn periodic_resolves_with_empty_format_defaulting() {
    let p = try_resolve_daily_path(
        &source(DailySource::PeriodicNotes),
        "p.json",
        plugin(Some("journal/2026"), Some(""), true),
        date(2026, 5, 9),
    )
    .unwrap()
    .unwrap();
    assert_eq!(p, at("journal/2026", "2026-05-09.md"));
}

#[test]
fn periodic_disabled_errors() {
    let err = try_resolve_daily_path(
        &source(DailySource::PeriodicNotes),
        "p.json",
        plugin(Some("journal"), Some(""), false),
        date(2026, 5, 9),
    )
    .unwrap()
    .unwrap_err();
    assert!(matches!(err, DailyError::PeriodicDailyDisabled { .. }));
}

#[test]
fn periodic_missing_errors() {
    let err = try_resolve_daily_path(&source(DailySource::PeriodicNotes), "p.json", None, date(2026, 5, 9))
        .unwrap()
        .unwrap_err();
    assert!(matches!(err, DailyError::PeriodicNotFound { .. }));
}

#[test]
fn periodic_enabled_default_true_when_absent() {
    let p = try_resolve_daily_path(
        &source(DailySource::PeriodicNotes),
        "p.json",
        plugin(Some("journal"), Some(""), true),
        date(2026, 5, 9),
    )
    .unwrap()
    .unwrap();
    assert_eq!(p, at("journal", "2026-05-09.md"));
}

#[test]
fn explicit_with_path_pattern() {
    let cfg = DailyNotes {
        source: DailySource::Explicit,
        path: Some("journal/YYYY".into()),
        format: None,
    };
    let p = try_resolve_daily_path(&cfg, "", None, date(2026, 5, 9)).unwrap().unwrap();
    assert_eq!(p, at("journal/2026", "2026-05-09.md"));
}

#[test]
fn explicit_with_year_month_pattern() {
    let cfg = DailyNotes {
        source: DailySource::Explicit,
        path: Some("journal/YYYY/MM".into()),
        format: Some("DD-dddd".into()),
    };
    let p = try_resolve_daily_path(&cfg, "", None, date(2026, 5, 9)).unwrap().unwrap();
    assert_eq!(p, at("journal/2026/05", "09-Saturday.md"));
}

#[test]
fn explicit_static_path() {
    let cfg = DailyNotes {
        source: DailySource::Explicit,
        path: Some("inbox".into()),
        format: Some("YYYY-MM-DD".into()),
    };
    let p = try_resolve_daily_path(&cfg, "", None, date(2026, 5, 9)).unwrap().unwrap();
    assert_eq!(p, at("inbox", "2026-05-09.md"));
}

#[test]
fn explicit_requires_path() {
    let cfg = DailyNotes {
        source: DailySource::Explicit,
        path: None,
        format: None,
    };
    let err = try_resolve_daily_path(&cfg, "", None, date(2026, 5, 9)).unwrap().unwrap_err();
    assert!(matches!(err, DailyError::ExplicitMissingPath));
}

#[test]
fn time_of_day_tokens_cannot_name_a_daily_note() {
    let cfg = DailyNotes {
        source: DailySource::Explicit,
        path: Some("inbox".into()),
        format: Some("YYYY-MM-DD HH".into()),
    };
    assert!(try_resolve_daily_path(&cfg, "", None, date(2026, 5, 9)).is_none());
}

#[test]
fn month_names_render() {
    let cfg = DailyNotes {
        source: DailySource::Explicit,
        path: Some("YYYY/MMMM".into()),
        format: Some("D MMM".into()),
    };
    let p = try_resolve_daily_path(&cfg, "", None, date(2026, 1, 5)).unwrap().unwrap();
    assert_eq!(p, at("2026/January", "5 Jan.md"));
}
