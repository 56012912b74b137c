use logcrunch::listing::{ListLocal, WalkAction};
use logcrunch::civil::CivilTime;
use logcrunch::consumer::{uri_type_of_pattern, UriType};
use logcrunch::pathexpr::{MatchContext, PathElement, PathElementPart, PathExpression, PathMatchOptions};
use logcrunch::s3list::{
    last_segment_of, retry_listing, ListErrorKind, ListFailure, ListPage, ListS3, SpecialiseS3,
};

fn probe_path(w: &mut ListLocal) -> String {
    match w.next() {
        WalkAction::Probe(p) => p,
        other => panic!("expected a probe, got {:?}", other),
    }
}

#[test]
fn walk_lists_and_filters() {
    let e = PathExpression::parse("logs/{host}/access.log").unwrap();
    let mut w = ListLocal::new(&e, PathMatchOptions::new(), "/srv".to_string());
    // "logs" is literal: probed at once
    assert_eq!(probe_path(&mut w), "/srv/logs");
    assert_eq!(w.probed(true, true), None);
    match w.next() {
        WalkAction::ListDir(d) => assert_eq!(d, "/srv/logs"),
        other => panic!("expected a listing, got {:?}", other),
    }
    w.dir_listed(vec!["web1".to_string(), "web2".to_string()]);
    // the last candidate is probed first
    assert_eq!(probe_path(&mut w), "/srv/logs/web2");
    assert_eq!(w.probed(true, true), None);
    assert_eq!(probe_path(&mut w), "/srv/logs/web2/access.log");
    assert_eq!(w.probed(true, false), Some("/srv/logs/web2/access.log".to_string()));
    assert_eq!(probe_path(&mut w), "/srv/logs/web1");
    assert_eq!(w.probed(false, false), None);
    assert!(matches!(w.next(), WalkAction::Finished));
}

#[test]
fn walk_of_empty_expression_finishes() {
    let e = PathExpression::parse("").unwrap();
    let mut w = ListLocal::new(&e, PathMatchOptions::new(), "/".to_string());
    assert!(matches!(w.next(), WalkAction::Finished));
}

#[test]
fn walk_filters_time_fields() {
    let e = PathExpression::parse("{%Y}").unwrap();
    let mut w = ListLocal::new(&e, PathMatchOptions::new(), "/d/".to_string());
    match w.next() {
        WalkAction::ListDir(d) => assert_eq!(d, "/d/"),
        other => panic!("expected a listing, got {:?}", other),
    }
    w.dir_listed(vec!["2017".to_string(), "tmp".to_string()]);
    assert_eq!(probe_path(&mut w), "/d/2017");
    assert_eq!(w.probed(true, true), Some("/d/2017".to_string()));
    assert!(matches!(w.next(), WalkAction::Finished));
}

#[test]
fn retries_only_dispatch_failures() {
    assert!(retry_listing(1, ListErrorKind::HttpDispatch));
    assert!(retry_listing(2, ListErrorKind::HttpDispatch));
    assert!(!retry_listing(3, ListErrorKind::HttpDispatch));
    assert!(!retry_listing(1, ListErrorKind::NoSuchBucket));
}

fn keys(v: &[&str]) -> Option<Vec<Option<String>>> {
    Some(v.iter().map(|k| Some(k.to_string())).collect())
}

#[test]
fn object_listing_pages() {
    let e = PathExpression::parse("logs/{host}/a.log").unwrap();
    let mut l = ListS3::new("bucket", e);
    let q = l.next_request().unwrap();
    assert_eq!(q.prefix, "logs/");
    assert_eq!(q.bucket, "bucket");
    assert_eq!(q.marker, None);
    let found = l
        .accept_page(Ok(ListPage {
            contents: keys(&["logs/w1/a.log", "logs/w1/b.log", "logs/w2/a.log"]),
            common_prefixes: None,
            is_truncated: Some(true),
            next_marker: None,
        }))
        .unwrap();
    assert_eq!(found, vec!["logs/w1/a.log".to_string(), "logs/w2/a.log".to_string()]);
    assert_eq!(l.next_request().unwrap().marker, Some("logs/w2/a.log".to_string()));
    let found = l
        .accept_page(Ok(ListPage {
            contents: keys(&["logs/w3/a.log"]),
            common_prefixes: None,
            is_truncated: Some(false),
            next_marker: None,
        }))
        .unwrap();
    assert_eq!(found, vec!["logs/w3/a.log".to_string()]);
    assert!(l.next_request().is_none());
}

#[test]
fn object_listing_failures_end_it() {
    let e = PathExpression::parse("logs/{host}").unwrap();
    let mut l = ListS3::new("b", e);
    let err = l.accept_page(Err(ListErrorKind::HttpDispatch)).unwrap_err();
    assert_eq!(err.path, "logs/");
    assert_eq!(err.error, ListFailure::Request(ListErrorKind::HttpDispatch));
    assert!(l.next_request().is_none());
    let e = PathExpression::parse("logs/{host}").unwrap();
    let mut l = ListS3::new("b", e);
    let page = ListPage { contents: None, common_prefixes: None, is_truncated: None, next_marker: None };
    assert_eq!(l.accept_page(Ok(page)).unwrap_err().error, ListFailure::EmptyPage);
}

#[test]
fn specialise_first_placeholder() {
    let e = PathExpression::parse("logs/{host}/{%Y}/a.log").unwrap();
    let opts = PathMatchOptions::new();
    let mut s = SpecialiseS3::new("b", e, MatchContext::new(&opts)).unwrap();
    let q = s.next_request().unwrap();
    assert_eq!(q.prefix, "logs/");
    assert_eq!(q.delimiter, Some("/".to_string()));
    let found = s
        .accept_page(Ok(ListPage {
            contents: None,
            common_prefixes: keys(&["logs/web1/", "logs/web2/"]),
            is_truncated: Some(true),
            next_marker: Some("logs/web2/".to_string()),
        }))
        .unwrap();
    assert_eq!(found.len(), 2);
    assert_eq!(found[0].common_prefix(), "logs/web1/");
    assert_eq!(found[1].common_prefix(), "logs/web2/");
    assert!(found[0].is_match("logs/web1/2017/a.log"));
    assert!(!found[0].is_match("logs/web2/2017/a.log"));
    assert_eq!(s.next_request().unwrap().marker, Some("logs/web2/".to_string()));
}

#[test]
fn no_variable_no_specialisation() {
    let e = PathExpression::parse("logs/x").unwrap();
    assert!(SpecialiseS3::new("b", e, MatchContext::new(&PathMatchOptions::new())).is_none());
    let e = PathExpression::parse("logs/{%Y}").unwrap();
    assert!(SpecialiseS3::new("b", e, MatchContext::new(&PathMatchOptions::new())).is_some());
}

#[test]
fn last_segments() {
    assert_eq!(last_segment_of("logs/web1/"), "web1");
    assert_eq!(last_segment_of("logs/web1"), "web1");
    assert_eq!(last_segment_of("web1//"), "web1");
    assert_eq!(last_segment_of("/"), "");
}

fn hour_minute_element() -> PathElement {
    PathElement::new(vec![
        PathElementPart::TimePart { fmt: "H".to_string(), value: None, last_in_expression: false },
        PathElementPart::Literal(":".to_string()),
        PathElementPart::TimePart { fmt: "M".to_string(), value: None, last_in_expression: true },
    ])
}

#[test]
fn captures_set_time_fields() {
    let e = hour_minute_element();
    let mut ctx = MatchContext::new(&PathMatchOptions::new());
    assert!(e.match_captures(&mut ctx, &vec!["11".to_string(), "30".to_string()]));
    assert_eq!(ctx.match_time.hour, 11);
    assert_eq!(ctx.match_time.minute, 30);
    let mut ctx = MatchContext::new(&PathMatchOptions::new());
    assert!(!e.match_captures(&mut ctx, &vec!["11".to_string(), "x".to_string()]));
    assert!(!e.match_captures(&mut ctx, &vec!["11".to_string()]));
}

#[test]
fn captures_checked_against_bounds() {
    let e = hour_minute_element();
    let day = CivilTime { year: 0, month: 0, day: 0, hour: 11, minute: 20, second: 0 };
    let mut opts = PathMatchOptions::new();
    opts.from(day);
    opts.to(CivilTime { minute: 44, ..day });
    let mut ctx = MatchContext::new(&opts);
    assert!(e.match_captures(&mut ctx, &vec!["11".to_string(), "30".to_string()]));
    assert!(!e.match_captures(&mut ctx, &vec!["11".to_string(), "50".to_string()]));
    assert!(!e.match_captures(&mut ctx, &vec!["10".to_string(), "30".to_string()]));
    assert!(e.matches(&mut ctx, "11:21"));
    assert!(!e.matches(&mut ctx, "11:19"));
}

#[test]
fn pattern_positions_name_kinds() {
    assert_eq!(uri_type_of_pattern(Some(0)), UriType::HdsBootstrap);
    assert_eq!(uri_type_of_pattern(Some(4)), UriType::HlsMasterManifest);
    assert_eq!(uri_type_of_pattern(Some(9)), UriType::Admin);
    assert_eq!(uri_type_of_pattern(None), UriType::UnknownOther);
}

fn run_walk(mut w: ListLocal, dirs: &[(&str, &[&str])], files: &[&str]) -> Vec<String> {
    let mut found = Vec::new();
    loop {
        match w.next() {
            WalkAction::Finished => break,
            WalkAction::ListDir(d) => {
                let names = dirs
                    .iter()
                    .find(|(p, _)| *p == d)
                    .map(|(_, n)| n.iter().map(|s| s.to_string()).collect())
                    .unwrap_or_default();
                w.dir_listed(names);
            }
            WalkAction::Probe(p) => {
                let is_dir = dirs.iter().any(|(d, _)| *d == p);
                let exists = is_dir || files.contains(&p.as_str());
                if let Some(m) = w.probed(exists, is_dir) {
                    found.push(m);
                }
            }
        }
    }
    found.sort();
    found
}

#[test]
fn walk_checks_each_path_with_its_own_time() {
    let e = PathExpression::parse("{%Y}/{%m}").unwrap();
    let mut opts = PathMatchOptions::new();
    let from = CivilTime { year: 2016, month: 12, day: 1, hour: 0, minute: 0, second: 0 };
    opts.from(from);
    opts.to(CivilTime { year: 2017, month: 1, day: 31, ..from });
    let w = ListLocal::new(&e, opts, "/d".to_string());
    let months: &[&str] = &["12", "01"];
    let dirs: Vec<(&str, &[&str])> = vec![
        ("/d", &["2016", "2017", "2015"]),
        ("/d/2015", months),
        ("/d/2016", months),
        ("/d/2017", months),
    ];
    let files = [
        "/d/2015/12", "/d/2015/01", "/d/2016/12", "/d/2016/01", "/d/2017/12", "/d/2017/01",
    ];
    assert_eq!(run_walk(w, &dirs, &files), vec!["/d/2016/12".to_string(), "/d/2017/01".to_string()]);
}
