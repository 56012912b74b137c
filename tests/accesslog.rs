use logcrunch::accesslog::{parse_line, skip_to_eol, HttpdAccessLogParser, LineError};
use logcrunch::fetch::{has_gz_extension, is_gzip};
use logcrunch::consumer::{classify, timeslice, Consumer, UriType};
use logcrunch::datasource::{select_source, Datasources, FileSource, S3Source, SourceChoice};
use logcrunch::text::parse_unsigned;

const LINE: &str = "[03/Feb/2017:11:30:15 +0000] 10.0.0.1 - - \"GET /video/x.m3u8 HTTP/1.1\" 200 1234 \"-\" \"UA\" \"h\" 4200 \"-\" 443 HIT proxy:http";

#[test]
fn line_gives_one_record() {
    let r = parse_line(LINE.as_bytes()).unwrap();
    assert_eq!(r.timestamp, 1486121415);
    assert_eq!(r.remote_host, "10.0.0.1");
    assert_eq!(r.remote_logname, "-");
    assert_eq!(r.remote_user, "-");
    assert_eq!(r.request_method, "GET");
    assert_eq!(r.request_uri, "/video/x.m3u8");
    assert_eq!(r.request_proto, "HTTP/1.1");
    assert_eq!(r.response_status, "200");
    assert_eq!(r.response_bytes, Some(1234));
    assert_eq!(r.request_referer, "-");
    assert_eq!(r.request_useragent, "UA");
    assert_eq!(r.request_host, "h");
    assert_eq!(r.response_time_micros, 4200);
    assert_eq!(r.request_forwarded_for, "-");
    assert_eq!(r.request_local_port, 443);
    assert_eq!(r.response_cache_status, "HIT");
    assert_eq!(r.request_handler, "proxy:http");
}

#[test]
fn uri_is_percent_decoded_and_escapes_kept() {
    let line = "[03/Feb/2017:11:30:15 +0000] h l u \"GET /a%20b HTTP/1.1\" 404 - \"r\\\"x\" \"UA\" \"h\" 7 \"-\" 80 MISS p";
    let r = parse_line(line.as_bytes()).unwrap();
    assert_eq!(r.request_uri, "/a b");
    assert_eq!(r.request_referer, "r\\\"x");
    assert_eq!(r.response_bytes, None);
    assert_eq!(r.response_status, "404");
}

#[test]
fn line_without_bracket_gives_no_record() {
    let line = LINE.replacen('[', "x", 1);
    assert!(matches!(parse_line(line.as_bytes()), Err(LineError::MissingTimestamp)));
    assert!(matches!(parse_line(b""), Err(LineError::MissingTimestamp)));
}

#[test]
fn line_errors() {
    let bad_time = LINE.replace("03/Feb/2017", "03/Foo/2017");
    assert!(matches!(parse_line(bad_time.as_bytes()), Err(LineError::BadTimestamp)));
    let truncated = "[03/Feb/2017:11:30:15 +0000] 10.0.0.1 - - \"GET /x HTTP/1.1";
    assert!(matches!(parse_line(truncated.as_bytes()), Err(LineError::Layout)));
    let bad_port = LINE.replace(" 443 ", " 4294967296 ");
    assert!(matches!(parse_line(bad_port.as_bytes()), Err(LineError::InvalidData { .. })));
    let short_request = LINE.replace("GET /video/x.m3u8 HTTP/1.1", "GET");
    assert!(matches!(parse_line(short_request.as_bytes()), Err(LineError::InvalidData { .. })));
    let mut not_utf8 = LINE.as_bytes().to_vec();
    not_utf8[31] = 0xff;
    assert!(matches!(parse_line(&not_utf8), Err(LineError::InvalidData { .. })));
}

#[test]
fn bytes_field_dash_or_decimal() {
    let r = parse_line(LINE.replace(" 1234 ", " - ").as_bytes()).unwrap();
    assert_eq!(r.response_bytes, None);
    let r = parse_line(LINE.replace(" 1234 ", " 0 ").as_bytes()).unwrap();
    assert_eq!(r.response_bytes, Some(0));
}

#[test]
fn bad_line_is_skipped_and_next_is_read() {
    let buf = format!("garbage line\n{}\n", LINE);
    let mut consumer = Consumer::new();
    let skipped = HttpdAccessLogParser::new().process_lines(buf.as_bytes(), &mut consumer);
    assert_eq!(skipped.len(), 1);
    assert_eq!(skipped[0].0, 0);
    assert_eq!(consumer.dump_by_status_timeslice(), "timeslice\t200\n1486121400\t1\t\n");
}

#[test]
fn status_report_for_one_line() {
    let mut consumer = Consumer::new();
    let skipped = HttpdAccessLogParser::new().process_lines(LINE.as_bytes(), &mut consumer);
    assert!(skipped.is_empty());
    assert_eq!(consumer.dump_by_status_timeslice(), "timeslice\t200\n1486121400\t1\t\n");
}

#[test]
fn uritype_report_for_one_line() {
    let mut consumer = Consumer::new();
    HttpdAccessLogParser::new().process_lines(LINE.as_bytes(), &mut consumer);
    assert_eq!(consumer.dump_by_uritype_timeslice(), "timeslice\tHlsMasterManifest\n1486121400\t1\t\n");
}

#[test]
fn servicetime_report_for_one_line() {
    let mut consumer = Consumer::new();
    HttpdAccessLogParser::new().process_lines(LINE.as_bytes(), &mut consumer);
    // With one significant figure, 4200 falls in the bucket 4096..=4351.
    assert_eq!(consumer.dump_servicetimes_by_timeslice(), "timeslice\t4351\n1486121400\t1\t\n");
}

#[test]
fn two_lines_count_two() {
    let buf = format!("{}\n{}\n", LINE, LINE);
    let mut consumer = Consumer::new();
    HttpdAccessLogParser::new().process_lines(buf.as_bytes(), &mut consumer);
    assert_eq!(consumer.dump_by_status_timeslice(), "timeslice\t200\n1486121400\t2\t\n");
    assert_eq!(consumer.dump_by_uritype_timeslice(), "timeslice\tHlsMasterManifest\n1486121400\t2\t\n");
    assert_eq!(consumer.dump_servicetimes_by_timeslice(), "timeslice\t4351\n1486121400\t2\t\n");
}

#[test]
fn empty_consumer_reports_header_only() {
    let c = Consumer::new();
    assert_eq!(c.dump_by_status_timeslice(), "timeslice\n");
    assert_eq!(c.dump_by_uritype_timeslice(), "timeslice\n");
    assert_eq!(c.dump_servicetimes_by_timeslice(), "timeslice\n");
}

fn consumer_of(lines: &[String]) -> Consumer {
    let mut c = Consumer::new();
    let buf = lines.join("\n");
    HttpdAccessLogParser::new().process_lines(buf.as_bytes(), &mut c);
    c
}

fn sorted_lines(s: String) -> Vec<String> {
    let mut v: Vec<String> = s.lines().map(|l| l.to_string()).collect();
    v.sort();
    v
}

#[test]
fn merge_commutes() {
    let a_lines = vec![LINE.to_string(), LINE.replace(" 200 ", " 404 ")];
    let b_lines = vec![LINE.replace("11:30:15", "12:30:15")];
    let mut ab = consumer_of(&a_lines);
    ab.merge(&consumer_of(&b_lines));
    let mut ba = consumer_of(&b_lines);
    ba.merge(&consumer_of(&a_lines));
    assert_eq!(
        sorted_lines(ab.dump_servicetimes_by_timeslice()),
        sorted_lines(ba.dump_servicetimes_by_timeslice())
    );
    assert_eq!(ab.dump_by_uritype_timeslice(), ba.dump_by_uritype_timeslice());
    let all = consumer_of(&[a_lines.clone(), b_lines.clone()].concat());
    assert_eq!(ab.dump_by_status_timeslice(), all.dump_by_status_timeslice());
    assert_eq!(
        ba.dump_by_status_timeslice(),
        "timeslice\t200\t404\n1486121400\t1\t1\t\n1486125000\t1\t0\t\n"
    );
}

#[test]
fn merge_associates() {
    let a = vec![LINE.to_string()];
    let b = vec![LINE.replace(" 200 ", " 500 ")];
    let c = vec![LINE.replace("11:30:15", "11:40:15")];
    let mut left = consumer_of(&a);
    left.merge(&consumer_of(&b));
    left.merge(&consumer_of(&c));
    let mut bc = consumer_of(&b);
    bc.merge(&consumer_of(&c));
    let mut right = consumer_of(&a);
    right.merge(&bc);
    assert_eq!(left.dump_by_status_timeslice(), right.dump_by_status_timeslice());
    assert_eq!(left.dump_by_uritype_timeslice(), right.dump_by_uritype_timeslice());
    assert_eq!(left.dump_servicetimes_by_timeslice(), right.dump_servicetimes_by_timeslice());
}

#[test]
fn classify_uris() {
    assert_eq!(classify("/video/x.m3u8"), UriType::HlsMasterManifest);
    assert_eq!(classify("/foo/bar.ts"), UriType::HlsSegment);
    assert_eq!(classify("/unknown"), UriType::UnknownOther);
    assert_eq!(classify("/v/video=100-x.m3u8"), UriType::HlsMediaManifest);
    assert_eq!(classify("/a/b.bootstrap"), UriType::HdsBootstrap);
    assert_eq!(classify("/a/b-Seg1-Frag12"), UriType::HdsSegment);
    assert_eq!(classify("/x/state"), UriType::Admin);
    assert_eq!(classify("/x.mpd"), UriType::DashManifest);
    assert_eq!(UriType::DashSegment.name(), "DashSegment");
}

#[test]
fn timeslices_round_down() {
    assert_eq!(timeslice(1486121415, 300), 1486121400);
    assert_eq!(timeslice(1486121415, 1200), 1486120800);
    assert_eq!(timeslice(1486121400, 300), 1486121400);
    assert_eq!(timeslice(-1, 300), -300);
}

#[test]
fn unsigned_fields() {
    assert_eq!(parse_unsigned(b"+12", 100), Some(12));
    assert_eq!(parse_unsigned(b"101", 100), None);
    assert_eq!(parse_unsigned(b"18446744073709551615", u64::MAX), Some(u64::MAX));
    assert_eq!(parse_unsigned(b"18446744073709551616", u64::MAX), None);
    assert_eq!(parse_unsigned(b"", 5), None);
    assert_eq!(parse_unsigned(b"+", 5), None);
    assert_eq!(parse_unsigned(b"1a", 50), None);
}

#[test]
fn sources_by_name() {
    let ds = Datasources {
        s3: vec![S3Source {
            name: "live".to_string(),
            region: "eu-west-1".to_string(),
            bucket: "logs".to_string(),
            pathexp: "{inst}/{%Y}".to_string(),
        }],
        file: vec![
            FileSource { name: "local".to_string(), pathexp: "/var/log/{f}".to_string() },
            FileSource { name: "live".to_string(), pathexp: "x".to_string() },
        ],
    };
    assert_eq!(select_source(&ds, "live"), SourceChoice::S3(0));
    assert_eq!(select_source(&ds, "local"), SourceChoice::File(0));
    assert_eq!(select_source(&ds, "none"), SourceChoice::Unknown);
}

#[test]
fn offsets_give_utc_seconds() {
    let r = parse_line(LINE.replace("11:30:15 +0000", "12:30:15 +0100").as_bytes()).unwrap();
    assert_eq!(r.timestamp, 1486121415);
    let r = parse_line(LINE.replace("11:30:15 +0000", "10:00:15 -0130").as_bytes()).unwrap();
    assert_eq!(r.timestamp, 1486121415);
    let r = parse_line(LINE.replace("03/Feb/2017:11:30:15", "01/Jan/1970:00:00:00").as_bytes()).unwrap();
    assert_eq!(r.timestamp, 0);
    let r = parse_line(LINE.replace("03/Feb/2017:11:30:15", "29/Feb/2000:23:59:59").as_bytes()).unwrap();
    assert_eq!(r.timestamp, 951868799);
    let r = parse_line(LINE.replace("03/Feb/2017:11:30:15", "31/Dec/1969:23:59:59").as_bytes()).unwrap();
    assert_eq!(r.timestamp, -1);
}

#[test]
fn request_line_splits_on_unicode_whitespace() {
    let line = LINE.replace("GET /video/x.m3u8 HTTP/1.1", "GET\u{a0}/v\u{2003}HTTP/1.1");
    let r = parse_line(line.as_bytes()).unwrap();
    assert_eq!(r.request_method, "GET");
    assert_eq!(r.request_uri, "/v");
    assert_eq!(r.request_proto, "HTTP/1.1");
}

#[test]
fn skip_to_eol_from_anywhere() {
    let data = b"ab\ncd";
    let mut i = 0;
    skip_to_eol(data, &mut i);
    assert_eq!(i, 3);
    skip_to_eol(data, &mut i);
    assert_eq!(i, 5);
    let mut j = 17;
    skip_to_eol(data, &mut j);
    assert_eq!(j, 5);
}

#[test]
fn gzip_decisions() {
    assert!(is_gzip(Some("application/gzip"), "a/b.log"));
    assert!(is_gzip(Some("binary/octet-stream"), "a/b.log.gz"));
    assert!(!is_gzip(Some("binary/octet-stream"), "a/b.log"));
    assert!(!is_gzip(Some("text/plain"), "a/b.gz"));
    assert!(!is_gzip(None, "a/b.gz"));
    assert!(has_gz_extension("/var/log/x.log.gz"));
    assert!(!has_gz_extension("/var/log/x.log"));
}

#[test]
fn zero_service_times_are_reported() {
    let line = LINE.replace(" 4200 ", " 0 ");
    let mut consumer = Consumer::new();
    HttpdAccessLogParser::new().process_lines(line.as_bytes(), &mut consumer);
    assert_eq!(consumer.dump_servicetimes_by_timeslice(), "timeslice\t0\n1486121400\t1\t\n");
    let both = format!("{}\n{}", line, LINE);
    let mut consumer = Consumer::new();
    HttpdAccessLogParser::new().process_lines(both.as_bytes(), &mut consumer);
    assert_eq!(consumer.dump_servicetimes_by_timeslice(), "timeslice\t0\t4351\n1486121400\t1\t1\t\n");
}
