use logcrunch::civil::{civil_from_tm, CivilTime, TmFields};
use logcrunch::pathexpr::{create_specialised, range_to_opts, PathExpression, PathMatchOptions, PeriodError};
use time::strptime;

fn civil(s: &str) -> CivilTime {
    let t = strptime(s, "%Y-%m-%d %H:%M:%S").unwrap();
    civil_from_tm(&TmFields {
        tm_sec: t.tm_sec,
        tm_min: t.tm_min,
        tm_hour: t.tm_hour,
        tm_mday: t.tm_mday,
        tm_mon: t.tm_mon,
        tm_year: t.tm_year,
        tm_wday: t.tm_wday,
        tm_yday: t.tm_yday,
        tm_isdst: t.tm_isdst,
        tm_utcoff: t.tm_utcoff,
        tm_nsec: t.tm_nsec,
    })
}

#[test]
fn contant() {
    let e = PathExpression::parse("a").unwrap();
    assert_eq!("a", e.common_prefix());
    assert!(e.is_match("a"));
    assert!(!e.is_match("b"));
    assert!(!e.is_match(""));
    assert!(!e.is_match("aa"));
}

#[test]
fn separator() {
    let e = PathExpression::parse("/").unwrap();
    assert_eq!("/", e.common_prefix());
    assert!(e.is_match("/"));

    let e = PathExpression::parse("a/").unwrap();
    assert_eq!("a/", e.common_prefix());
    assert!(e.is_match("a/"));
    assert!(!e.is_match("a/b"));

    let e = PathExpression::parse("a/b").unwrap();
    assert_eq!("a/b", e.common_prefix());
    assert!(e.is_match("a/b"));
    assert!(e.is_match("a///b"));
    assert!(!e.is_match("a"));

    let e = PathExpression::parse("a///b").unwrap();
    assert_eq!("a/b", e.common_prefix());
    assert!(e.is_match("a/b"));
}

#[test]
fn placeholder() {
    let e = PathExpression::parse("a/{b}/c").unwrap();
    assert_eq!("a/", e.common_prefix());
    assert!(e.is_match("a/bbb/c"));
}

#[test]
fn time_common_hour() {
    let e = PathExpression::parse("a/{%H}:{%M}/c").unwrap();
    let mut options = PathMatchOptions::new();
    options.from(civil("2017-02-03 11:20:34"));
    options.to(civil("2017-02-03 11:44:34"));
    let expr = e.with(options);
    assert_eq!("a/11:", expr.common_prefix());
    assert!(e.is_match("a/11:30/c"));
}

#[test]
fn time_different_minute() {
    // NB 'seconds' comes before 'minutes' (which means the time doesn't contribute to the
    // common prefix)
    let e = PathExpression::parse("a/{%S}:{%M}/c").unwrap();
    let mut options = PathMatchOptions::new();
    options.from(civil("2017-02-03 11:20:34"));
    options.to(civil("2017-02-03 11:44:34"));
    let expr = e.with(options);
    assert_eq!("a/", expr.common_prefix());
    assert!(e.is_match("a/30:11/c"));
}

#[test]
fn specialised_expression_matches_within_range() {
    let e = PathExpression::parse("a/{%H}:{%M}/c").unwrap();
    let mut options = PathMatchOptions::new();
    options.from(civil("2017-02-03 11:20:34"));
    options.to(civil("2017-02-03 11:44:34"));
    let expr = e.with(options);
    assert!(expr.is_match("a/11:30/c"));
    assert!(!expr.is_match("a/11:50/c"));
}

#[test]
fn single_element_matches_only_itself() {
    let e = PathExpression::parse("a").unwrap();
    assert!(!e.is_match("a/"));
    let e = PathExpression::parse("a/").unwrap();
    assert!(e.is_match("a/"));
    assert!(e.is_match("a"));
}

#[test]
fn specialised_hour_rejects_other_hour() {
    let e = PathExpression::parse("a/{%H}:{%M}/c").unwrap();
    let mut options = PathMatchOptions::new();
    options.from(civil("2017-02-03 11:20:34"));
    options.to(civil("2017-02-03 11:44:34"));
    let expr = e.with(options);
    assert!(!expr.is_match("a/12:30/c"));
    assert!(e.is_match("a/12:30/c"));
}

#[test]
fn prefix_of_literal_paths_is_the_path() {
    for s in ["", "a", "/a", "a/b/c", "/x/y/", "a}b/c", "//"] {
        let e = PathExpression::parse(s).unwrap();
        assert_eq!(s, e.common_prefix());
    }
}

#[test]
fn prefix_of_bound_expression_is_rendered_path() {
    let e = PathExpression::parse("/logs/{host}/x{inst}y/").unwrap();
    assert_eq!("/logs/", e.common_prefix());
    let once = create_specialised(&e, "web1");
    assert_eq!("/logs/web1/x", once.common_prefix());
    let twice = create_specialised(&once, "7");
    assert_eq!("/logs/web1/x7y/", twice.common_prefix());
    assert!(twice.is_match("/logs/web1/x7y"));
    assert!(!twice.is_match("/logs/web2/x7y"));
}

#[test]
fn placeholder_matches_any_segment() {
    let e = PathExpression::parse("a/{x}/c").unwrap();
    assert_eq!("a/", e.common_prefix());
    assert!(e.is_match("a/anything/c"));
    assert!(!e.is_match("a/anything/d"));
    assert!(!e.is_match("a/anything"));
}

#[test]
fn literal_dot_is_escaped() {
    let e = PathExpression::parse("a.b").unwrap();
    assert!(e.is_match("a.b"));
    assert!(!e.is_match("axb"));
}

#[test]
fn time_field_must_be_digits() {
    let e = PathExpression::parse("d{%d}").unwrap();
    assert!(e.is_match("d03"));
    assert!(!e.is_match("dxx"));
    assert!(!e.is_match("d"));
}

#[test]
fn time_range_bounds_the_match() {
    let e = PathExpression::parse("{%Y}/{%m}/{%d}/{%H}").unwrap();
    let mut options = PathMatchOptions::new();
    options.from(civil("2017-02-03 11:00:00"));
    options.to(civil("2017-02-03 13:00:00"));
    let expr = e.with(options);
    assert_eq!("2017/02/03/", expr.common_prefix());
    assert!(expr.is_match("2017/02/03/12"));
    assert!(!expr.is_match("2017/02/03/14"));
    assert!(!expr.is_match("2017/02/03/10"));
}

#[test]
fn malformed_expressions_are_refused() {
    assert!(PathExpression::parse("a/{b").is_err());
    assert!(PathExpression::parse("a/{}/c").is_err());
    assert!(PathExpression::parse("{%Y}").is_ok());
}

#[test]
fn expression_without_elements_matches_empty_path() {
    let e = PathExpression::parse("").unwrap();
    assert!(e.is_match(""));
    assert!(!e.is_match("x"));
    assert!(!e.is_match("/x"));
    assert!(!e.is_match("/"));
}

#[test]
fn leading_separator_needs_leading_slash() {
    let e = PathExpression::parse("/a/b").unwrap();
    assert!(e.is_match("/a/b"));
    assert!(!e.is_match("a/b"));
}

#[test]
fn period_with_both_ends() {
    let o = range_to_opts(Some("2017-02-03:11:20:34..2017-02-03:11:44:34")).unwrap();
    assert_eq!(o.from, Some(civil("2017-02-03 11:20:34")));
    assert_eq!(o.to, Some(civil("2017-02-03 11:44:34")));
}

#[test]
fn period_with_open_start() {
    let o = range_to_opts(Some("..2017-02-03:11:44:34")).unwrap();
    assert_eq!(o.from, None);
    assert_eq!(o.to, Some(civil("2017-02-03 11:44:34")));
    let o = range_to_opts(Some("2017-02-03:11:44:34")).unwrap();
    assert_eq!(o.from, Some(civil("2017-02-03 11:44:34")));
    assert_eq!(o.to, None);
    let o = range_to_opts(None).unwrap();
    assert_eq!(o.from, None);
}

#[test]
fn period_errors() {
    assert_eq!(range_to_opts(Some("yesterday..today")).unwrap_err(), PeriodError::BadTime);
    assert_eq!(
        range_to_opts(Some("2017-02-03:11:44:34..2017-02-03:11:20:34")).unwrap_err(),
        PeriodError::NotIncreasing
    );
}

#[test]
fn civil_field_text() {
    let t = civil("2017-02-03 11:05:09");
    assert_eq!(t.field_text('Y'), vec!['2', '0', '1', '7']);
    assert_eq!(t.field_text('m'), vec!['0', '2']);
    assert_eq!(t.field_text('M'), vec!['0', '5']);
    assert_eq!(t.field_text('H'), vec!['1', '1']);
    assert!(civil("2017-02-03 11:05:09").is_before(&civil("2017-02-03 11:05:10")));
    assert!(!civil("2018-01-01 00:00:00").is_before(&civil("2017-12-31 23:59:59")));
}
